//! Other programs that are run, and how they end.

use vstd::prelude::*;

use crate::error::CommandError;
use crate::outside;
use crate::text;

verus! {

/// With which rights a program is run, and whether it has to succeed.
#[derive(Debug, Clone, Copy, PartialEq, Eq, Structural)]
pub enum Privilege {
    /// With those of the user.
    User,
    /// With those of the administrator.
    Administrator,
    /// With those of the administrator, whatever comes of it.
    BestEffort,
}

/// A program that is to be run.
#[derive(Debug, PartialEq, Eq)]
pub struct Invocation {
    pub privilege: Privilege,
    pub program: String,
    pub args: Vec<String>,
}

/// A program that is to be run as contracts speak of it.
pub struct InvocationView {
    pub privilege: Privilege,
    pub program: Seq<char>,
    pub args: Seq<Seq<char>>,
}

impl View for Invocation {
    type V = InvocationView;

    open spec fn view(&self) -> InvocationView {
        InvocationView {
            privilege: self.privilege,
            program: self.program@,
            args: self.args.deep_view(),
        }
    }
}

impl DeepView for Invocation {
    type V = InvocationView;

    open spec fn deep_view(&self) -> InvocationView {
        self@
    }
}

/// A program run with the rights of the administrator.
pub open spec fn administrator(program: Seq<char>, args: Seq<Seq<char>>) -> InvocationView {
    InvocationView { privilege: Privilege::Administrator, program, args }
}

/// A program run with the rights of the administrator, whatever comes of it.
pub open spec fn best_effort(program: Seq<char>, args: Seq<Seq<char>>) -> InvocationView {
    InvocationView { privilege: Privilege::BestEffort, program, args }
}

/// A program run with the rights of the user.
pub open spec fn user(program: Seq<char>, args: Seq<Seq<char>>) -> InvocationView {
    InvocationView { privilege: Privilege::User, program, args }
}

/// A program as it is run in fact: that of another user than the administrator
/// goes through `sudo` where it needs the rights of the administrator.
pub open spec fn elevated_form(i: InvocationView, is_root: bool) -> InvocationView {
    if is_root || i.privilege == Privilege::User {
        i
    } else {
        InvocationView {
            privilege: i.privilege,
            program: "sudo"@,
            args: seq![i.program] + i.args,
        }
    }
}

/// The arguments with one more.
fn with_arg(args: Vec<String>, arg: &str) -> (r: Vec<String>)
    ensures
        r.deep_view() == args.deep_view().push(arg@),
{
    let ghost before = args.deep_view();
    let mut r = args;
    r.push(arg.to_owned());
    assert(r.deep_view() == before.push(arg@));
    r
}

impl Invocation {
    /// A program without arguments.
    pub fn new(privilege: Privilege, program: &str) -> (i: Invocation)
        ensures
            i@ == (InvocationView { privilege, program: program@, args: seq![] }),
    {
        let args: Vec<String> = Vec::new();
        assert(args.deep_view() == Seq::<Seq<char>>::empty());
        Invocation { privilege, program: program.to_owned(), args }
    }

    /// The program with one more argument.
    pub fn arg(self, arg: &str) -> (i: Invocation)
        ensures
            i@ == (InvocationView { args: self@.args.push(arg@), ..self@ }),
    {
        Invocation {
            privilege: self.privilege,
            program: self.program,
            args: with_arg(self.args, arg),
        }
    }

    /// The program and the arguments that are run in fact: those of another
    /// user than the administrator go through `sudo` where they need the
    /// rights of the administrator.
    pub fn elevated(self, is_root: bool) -> (i: Invocation)
        ensures
            i@ == elevated_form(self@, is_root),
    {
        if is_root || self.privilege == Privilege::User {
            return self;
        }
        let mut args: Vec<String> = Vec::new();
        let ghost all = self.args.deep_view();
        let ghost head = seq![self.program@];
        args.push(self.program);
        assert(args.deep_view() =~= head + all.take(0));
        let n = self.args.len();
        let mut i: usize = 0;
        while i < n
            invariant
                i <= n,
                n == self.args@.len(),
                all == self.args.deep_view(),
                args.deep_view() == head + all.take(i as int),
            decreases n - i,
        {
            let ghost before = args.deep_view();
            args.push(self.args[i].clone());
            assert(args.deep_view() == before.push(all[i as int]));
            assert(args.deep_view() =~= head + all.take(i + 1));
            i = i + 1;
        }
        assert(all.take(n as int) == all);
        Invocation { privilege: self.privilege, program: "sudo".to_owned(), args }
    }
}

/// How a program ended: whether it succeeded, and its status unless a signal
/// ended it.
#[derive(Debug, Clone, Copy, PartialEq, Eq, Structural)]
pub struct Exit {
    pub success: bool,
    pub code: Option<i32>,
}

/// A number in decimal notation.
pub open spec fn signed_decimal(n: int) -> Seq<char> {
    if n < 0 {
        "-"@ + text::decimal((-n) as nat)
    } else {
        text::decimal(n as nat)
    }
}

fn signed_text(n: i32) -> (r: String)
    ensures
        r@ == signed_decimal(n as int),
{
    let wide: i64 = n as i64;
    if wide < 0 {
        let digits = text::decimal_text((-wide) as u128);
        text::concat("-", digits.as_str())
    } else {
        text::decimal_text(wide as u128)
    }
}

/// The message for a program that did not succeed.
pub open spec fn exit_message(program: Seq<char>, code: Option<i32>) -> Seq<char> {
    match code {
        Some(code) => program + " exited with status "@ + signed_decimal(code as int),
        None => program + " terminated by signal"@,
    }
}

/// Whether a program succeeded.
pub fn ensure_success(program: &str, exit: Exit) -> (r: Result<(), CommandError>)
    ensures
        r is Ok <==> exit.success,
        r matches Err(e) ==> e.is(exit_message(program@, exit.code)),
{
    if exit.success {
        return Ok(());
    }
    match exit.code {
        Some(code) => {
            let shown = signed_text(code);
            let message = text::concat3(program, " exited with status ", shown.as_str());
            Err(CommandError::new(message.as_str()))
        },
        None => {
            let message = text::concat(program, " terminated by signal");
            Err(CommandError::new(message.as_str()))
        },
    }
}

/// The message for a program that could not be run.
pub open spec fn unrun_message(privilege: Privilege, program: Seq<char>) -> Seq<char> {
    if privilege == Privilege::User {
        "failed to run "@ + program
    } else {
        "failed to run privileged command "@ + program
    }
}

/// The error for a program that could not be run.
pub fn run_failed(privilege: Privilege, program: &str) -> (e: CommandError)
    ensures
        e.is(unrun_message(privilege, program@)),
{
    if privilege == Privilege::User {
        let message = text::concat("failed to run ", program);
        CommandError::new(message.as_str())
    } else {
        let message = text::concat("failed to run privileged command ", program);
        CommandError::new(message.as_str())
    }
}

/// What a program wrote, and how it ended.
#[derive(Debug, PartialEq, Eq)]
pub struct Finished {
    pub exit: Exit,
    pub stdout: Vec<u8>,
}

/// Whether the user is the administrator, given what `id -u` wrote, or nothing
/// where it could not be run.
pub fn is_root(reply: Option<&Finished>) -> (r: Result<bool, CommandError>)
    ensures
        match reply {
            None => r matches Err(e) && e.is("failed to run `id -u`"@),
            Some(done) => if done.exit.success {
                r == Ok::<bool, CommandError>(
                    text::trimmed(outside::lossy_text(done.stdout@)) == "0"@,
                )
            } else {
                r matches Err(e) && e.is("`id -u` failed"@)
            },
        },
{
    match reply {
        None => Err(CommandError::new("failed to run `id -u`")),
        Some(done) => {
            if !done.exit.success {
                return Err(CommandError::new("`id -u` failed"));
            }
            let written = outside::decode_lossy(done.stdout.as_slice());
            let trimmed = text::trim(written.as_str());
            Ok(text::text_eq(trimmed.as_str(), "0"))
        },
    }
}

/// Two statuses are told apart by the message, and a status from a signal.
pub proof fn law_messages_tell_statuses_apart(program: Seq<char>, a: i32, b: i32)
    ensures
        exit_message(program, Some(a)) == exit_message(program, Some(b)) ==> a == b,
        exit_message(program, Some(a)) != exit_message(program, None),
        a >= 0 ==> text::unsigned_value(signed_decimal(a as int)) == Some(a as nat),
        a < 0 ==> signed_decimal(a as int) == seq!['-'] + text::decimal((-a) as nat),
        program.is_prefix_of(exit_message(program, Some(a))),
        program.is_prefix_of(exit_message(program, None)),
{
    reveal_strlit("-");
    reveal_strlit(" exited with status ");
    reveal_strlit(" terminated by signal");
    assert("-"@ =~= seq!['-']);
    let n = program.len() as int;
    let x = exit_message(program, Some(a));
    let y = exit_message(program, Some(b));
    let z = exit_message(program, None);
    assert(x[n + 1] == 'e');
    assert(z[n + 1] == 't');
    assert(x.take(n) == program);
    assert(z.take(n) == program);
    assert(x.skip(n + 20) == signed_decimal(a as int));
    assert(y.skip(n + 20) == signed_decimal(b as int));
    lemma_signed(a as int);
    lemma_signed(b as int);
    if x == y {
        assert(signed_decimal(a as int) == signed_decimal(b as int));
        let sa = signed_decimal(a as int);
        let sb = signed_decimal(b as int);
        assert(sa[0] == sb[0]);
        if a < 0 {
            assert(sa.drop_first() == text::decimal((-a) as nat));
            assert(sb.drop_first() == text::decimal((-b) as nat));
        }
    }
}

proof fn lemma_signed(n: int)
    ensures
        n >= 0 ==> text::unsigned_value(signed_decimal(n)) == Some(n as nat),
        n >= 0 ==> signed_decimal(n).len() > 0 && signed_decimal(n)[0] != '-',
        n < 0 ==> signed_decimal(n)[0] == '-' && signed_decimal(n).drop_first() == text::decimal(
            (-n) as nat,
        ) && text::unsigned_value(text::decimal((-n) as nat)) == Some((-n) as nat),
{
    reveal_strlit("-");
    if n < 0 {
        text::law_decimal_is_read_back((-n) as nat);
        assert(signed_decimal(n).drop_first() == text::decimal((-n) as nat));
    } else {
        text::law_decimal_is_read_back(n as nat);
        assert(text::is_digit(text::decimal(n as nat)[0]));
    }
}

/// The message for a program that could not be run names the program, and says
/// whether it needed the rights of the administrator.
pub proof fn law_unrun_programs_are_named(privilege: Privilege, program: Seq<char>)
    ensures
        program.is_suffix_of(unrun_message(privilege, program)),
        privilege == Privilege::User <==> unrun_message(privilege, program) == "failed to run "@
            + program,
        privilege != Privilege::User <==> unrun_message(privilege, program)
            == "failed to run privileged command "@ + program,
{
    reveal_strlit("failed to run ");
    reveal_strlit("failed to run privileged command ");
    let a = "failed to run "@ + program;
    let b = "failed to run privileged command "@ + program;
    assert(a.skip(a.len() - program.len()) == program);
    assert(b.skip(b.len() - program.len()) == program);
    assert(a.len() != b.len());
}

/// A program runs with the rights that it is given, and is told from one with
/// other rights.
pub proof fn law_rights_are_the_ones_given(program: Seq<char>, args: Seq<Seq<char>>)
    ensures
        administrator(program, args).privilege == Privilege::Administrator,
        best_effort(program, args).privilege == Privilege::BestEffort,
        user(program, args).privilege == Privilege::User,
        administrator(program, args).program == program && administrator(program, args).args
            == args,
        best_effort(program, args).program == program && best_effort(program, args).args == args,
        user(program, args).program == program && user(program, args).args == args,
{
}

/// Rights are only raised where they are missing and needed, and the program that
/// then runs is the same, with the same arguments in the same order.
pub proof fn law_rights_are_raised_where_needed(i: InvocationView, is_root: bool)
    ensures
        elevated_form(i, true) == i,
        i.privilege == Privilege::User ==> elevated_form(i, is_root) == i,
        i.privilege != Privilege::User && !is_root ==> {
            let run = elevated_form(i, is_root);
            &&& run.program == "sudo"@
            &&& run.args.len() == i.args.len() + 1
            &&& run.args[0] == i.program
            &&& run.args.skip(1) == i.args
        },
        elevated_form(i, is_root).privilege == i.privilege,
{
    assert((seq![i.program] + i.args).skip(1) == i.args);
}

} // verus!
