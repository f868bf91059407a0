//! The configuration file: lines of the form `NAME="value"`.

use vstd::prelude::*;

use crate::text;

verus! {

/// The text with every backslash and every double quote escaped by a backslash.
pub open spec fn escaped(s: Seq<char>) -> Seq<char>
    decreases s.len(),
{
    if s.len() == 0 {
        seq![]
    } else if s.last() == '\\' || s.last() == '"' {
        escaped(s.drop_last()).push('\\').push(s.last())
    } else {
        escaped(s.drop_last()).push(s.last())
    }
}

/// The text in double quotes, as it stands in the file.
pub open spec fn quoted(s: Seq<char>) -> Seq<char> {
    seq!['"'] + escaped(s) + seq!['"']
}

/// The text with each backslash that `c` follows taken out, from left to right.
pub open spec fn unescaped(s: Seq<char>, c: char) -> Seq<char>
    decreases s.len(),
{
    if s.len() == 0 {
        seq![]
    } else if s.len() >= 2 && s[0] == '\\' && s[1] == c {
        seq![c] + unescaped(s.skip(2), c)
    } else {
        seq![s[0]] + unescaped(s.drop_first(), c)
    }
}

/// The value that the text behind a name stands for.
pub open spec fn parsed(s: Seq<char>) -> Seq<char> {
    let t = text::trimmed(s);
    if t.len() >= 2 && t[0] == '"' && t.last() == '"' {
        unescaped(unescaped(t.subrange(1, t.len() - 1), '"'), '\\')
    } else {
        t
    }
}

/// What a line that sets a name starts with.
pub open spec fn assignment(name: Seq<char>) -> Seq<char> {
    name.push('=')
}

/// Whether a line sets a name.
pub open spec fn assigns(line: Seq<char>, name: Seq<char>) -> bool {
    assignment(name).is_prefix_of(line)
}

/// The first line that sets a name, or the number of lines.
pub open spec fn position(lines: Seq<Seq<char>>, name: Seq<char>) -> int
    decreases lines.len(),
{
    if lines.len() == 0 || assigns(lines[0], name) {
        0
    } else {
        1 + position(lines.drop_first(), name)
    }
}

/// The value that a name has.
pub open spec fn value_of(lines: Seq<Seq<char>>, name: Seq<char>) -> Option<Seq<char>> {
    let k = position(lines, name);
    if k < lines.len() {
        Some(parsed(lines[k].skip(assignment(name).len() as int)))
    } else {
        None
    }
}

/// The lines after a name was given a value: the first line that sets it is
/// replaced, or else a line is added.
pub open spec fn with_value(
    lines: Seq<Seq<char>>,
    name: Seq<char>,
    value: Seq<char>,
) -> Seq<Seq<char>> {
    let line = assignment(name) + quoted(value);
    let k = position(lines, name);
    if k < lines.len() {
        lines.update(k, line)
    } else {
        lines.push(line)
    }
}

/// The lines with a line feed behind each.
pub open spec fn rendered(lines: Seq<Seq<char>>) -> Seq<char>
    decreases lines.len(),
{
    if lines.len() == 0 {
        seq!['\n']
    } else if lines.len() == 1 {
        lines[0].push('\n')
    } else {
        lines[0].push('\n') + rendered(lines.drop_first())
    }
}

/// Whether a value is one of those that switch something on.
pub open spec fn is_on(value: Seq<char>) -> bool {
    let word = text::lower_text(value);
    word == "1"@ || word == "true"@ || word == "yes"@ || word == "on"@
}

/// Whether a name has a value that is not empty.
pub open spec fn is_set(lines: Seq<Seq<char>>, name: Seq<char>) -> bool {
    value_of(lines, name) matches Some(value) && value.len() > 0
}

/// Whether a certificate and its key are configured.
pub open spec fn has_tls(lines: Seq<Seq<char>>) -> bool {
    is_set(lines, "CHATGPT_BRIDGE_TLS_CERT"@) && is_set(lines, "CHATGPT_BRIDGE_TLS_KEY"@)
}

/// Whether the tunnel is configured.
pub open spec fn has_tunnel(lines: Seq<Seq<char>>) -> bool {
    value_of(lines, "CHATGPT_BRIDGE_NGROK_ENABLED"@) matches Some(value) && is_on(value)
}

/// The position of the first line that sets a name lies within the lines or at
/// their end, and no line before it sets the name.
proof fn lemma_position(lines: Seq<Seq<char>>, name: Seq<char>)
    ensures
        0 <= position(lines, name) <= lines.len(),
        position(lines, name) < lines.len() ==> assigns(lines[position(lines, name)], name),
        forall|i: int|
            0 <= i < position(lines, name) ==> !assigns(#[trigger] lines[i], name),
    decreases lines.len(),
{
    if lines.len() > 0 && !assigns(lines[0], name) {
        let rest = lines.drop_first();
        lemma_position(rest, name);
        assert forall|i: int| 0 <= i < position(lines, name) implies !assigns(
            #[trigger] lines[i],
            name,
        ) by {
            if i > 0 {
                assert(rest[i - 1] == lines[i]);
            }
        }
    }
}

/// The first line that sets a name is where the first such line is.
proof fn lemma_position_at(lines: Seq<Seq<char>>, name: Seq<char>, k: int)
    requires
        0 <= k <= lines.len(),
        k < lines.len() ==> assigns(lines[k], name),
        forall|i: int| 0 <= i < k ==> !assigns(#[trigger] lines[i], name),
    ensures
        position(lines, name) == k,
    decreases lines.len(),
{
    if k > 0 {
        let rest = lines.drop_first();
        assert(!assigns(lines[0], name));
        assert forall|i: int| 0 <= i < k - 1 implies !assigns(#[trigger] rest[i], name) by {
            assert(rest[i] == lines[i + 1]);
        }
        lemma_position_at(rest, name, k - 1);
    }
}

/// Escaping starts from the left as well.
proof fn lemma_escaped_first(s: Seq<char>)
    requires
        s.len() > 0,
    ensures
        escaped(s) == (if s[0] == '\\' || s[0] == '"' {
            seq!['\\', s[0]]
        } else {
            seq![s[0]]
        }) + escaped(s.drop_first()),
    decreases s.len(),
{
    let rest = s.drop_first();
    if s.len() == 1 {
        assert(s.drop_last() == Seq::<char>::empty());
        assert(rest == Seq::<char>::empty());
        reveal_with_fuel(escaped, 2);
        if s[0] == '\\' || s[0] == '"' {
            assert(escaped(s) =~= seq!['\\', s[0]] + escaped(rest));
        } else {
            assert(escaped(s) =~= seq![s[0]] + escaped(rest));
        }
    } else {
        lemma_escaped_first(s.drop_last());
        assert(s.drop_last().drop_first() == rest.drop_last());
        assert(rest.last() == s.last());
        let first = if s[0] == '\\' || s[0] == '"' { seq!['\\', s[0]] } else { seq![s[0]] };
        assert(escaped(s) =~= first + escaped(rest));
    }
}

/// An escaped text does not start with a double quote.
proof fn lemma_escaped_start(s: Seq<char>)
    ensures
        escaped(s).len() > 0 ==> escaped(s)[0] != '"',
{
    if s.len() > 0 {
        lemma_escaped_first(s);
    }
}

/// What was escaped is found again.
proof fn lemma_unescaped(s: Seq<char>)
    ensures
        unescaped(unescaped(escaped(s), '"'), '\\') == s,
    decreases s.len(),
{
    let e = escaped(s);
    if s.len() == 0 {
        assert(e == Seq::<char>::empty());
        assert(unescaped(e, '"') == Seq::<char>::empty());
        assert(s == Seq::<char>::empty());
    } else {
        let rest = s.drop_first();
        let er = escaped(rest);
        lemma_unescaped(rest);
        lemma_escaped_first(s);
        lemma_escaped_start(rest);
        let once = unescaped(er, '"');
        if s[0] == '"' {
            assert(e.skip(2) == er);
            assert(unescaped(e, '"') == seq!['"'] + once);
            let u = seq!['"'] + once;
            assert(u.drop_first() == once);
            assert(unescaped(u, '\\') == seq!['"'] + rest);
        } else if s[0] == '\\' {
            let tail = e.drop_first();
            assert(tail == seq!['\\'] + er);
            assert(e[1] == '\\');
            assert(unescaped(e, '"') == seq!['\\'] + unescaped(tail, '"'));
            assert(tail.drop_first() == er);
            if er.len() > 0 {
                assert(tail[1] == er[0]);
            }
            assert(unescaped(tail, '"') == seq!['\\'] + once);
            let u = seq!['\\'] + (seq!['\\'] + once);
            assert(unescaped(e, '"') == u);
            assert(u.skip(2) == once);
            assert(unescaped(u, '\\') == seq!['\\'] + rest);
        } else {
            assert(e.drop_first() == er);
            assert(unescaped(e, '"') == seq![s[0]] + once);
            let u = seq![s[0]] + once;
            assert(u.drop_first() == once);
            assert(unescaped(u, '\\') == seq![s[0]] + rest);
        }
        assert(seq![s[0]] + rest == s);
    }
}

/// A value that is written in quotes is read back as it was.
pub proof fn law_quoted_values_are_read_back(value: Seq<char>)
    ensures
        parsed(quoted(value)) == value,
{
    let q = quoted(value);
    assert(q[0] == '"' && q.last() == '"');
    assert(text::trim_start(q) == q);
    assert(text::trimmed(q) == q);
    assert(q.subrange(1, q.len() - 1) == escaped(value));
    lemma_unescaped(value);
}

/// A name that was given a value has that value.
pub proof fn law_value_is_what_was_set(
    lines: Seq<Seq<char>>,
    name: Seq<char>,
    value: Seq<char>,
)
    ensures
        value_of(with_value(lines, name, value), name) == Some(value),
{
    let k = position(lines, name);
    let line = assignment(name) + quoted(value);
    let after = with_value(lines, name, value);
    lemma_position(lines, name);
    assert(line.take(assignment(name).len() as int) == assignment(name));
    assert(assigns(line, name));
    assert forall|i: int| 0 <= i < k implies !assigns(#[trigger] after[i], name) by {
        assert(after[i] == lines[i]);
    }
    lemma_position_at(after, name, k);
    assert(line.skip(assignment(name).len() as int) == quoted(value));
    law_quoted_values_are_read_back(value);
}

/// To give a name a value leaves the values of all other names as they are.
/// This holds of names without an equals sign, of which a line sets just one.
pub proof fn law_other_values_stay(
    lines: Seq<Seq<char>>,
    name: Seq<char>,
    value: Seq<char>,
    other: Seq<char>,
)
    requires
        name != other,
        !name.contains('='),
        !other.contains('='),
    ensures
        value_of(with_value(lines, name, value), other) == value_of(lines, other),
{
    let k = position(lines, name);
    let j = position(lines, other);
    let line = assignment(name) + quoted(value);
    let after = with_value(lines, name, value);
    lemma_position(lines, name);
    lemma_position(lines, other);
    assert(line.take(assignment(name).len() as int) == assignment(name));
    lemma_one_name(line, name, other);
    if k < lines.len() {
        lemma_one_name(lines[k], name, other);
    }
    assert forall|i: int| 0 <= i < lines.len() implies (assigns(#[trigger] after[i], other)
        <==> assigns(lines[i], other)) by {
        if i != k {
            assert(after[i] == lines[i]);
        }
    }
    assert forall|i: int| 0 <= i < j implies !assigns(#[trigger] after[i], other) by {
        assert(!assigns(lines[i], other));
    }
    if j < lines.len() {
        assert(assigns(after[j], other));
        lemma_position_at(after, other, j);
        assert(after[j] == lines[j]);
    } else {
        assert forall|i: int| 0 <= i < after.len() implies !assigns(#[trigger] after[i], other) by {
            if i < lines.len() {
                assert(!assigns(lines[i], other));
            }
        }
        lemma_position_at(after, other, after.len() as int);
    }
}

proof fn lemma_one_name(line: Seq<char>, name: Seq<char>, other: Seq<char>)
    requires
        name != other,
        !name.contains('='),
        !other.contains('='),
        assigns(line, name),
    ensures
        !assigns(line, other),
{
    if assigns(line, other) {
        let m = name.len() as int;
        let n = other.len() as int;
        let a = assignment(name);
        let b = assignment(other);
        assert(line.take(m + 1) == a);
        assert(line.take(n + 1) == b);
        assert(a[m] == line[m]);
        assert(b[n] == line[n]);
        if m < n {
            assert(b[m] == line[m]);
            assert(other[m] == '=');
        } else if n < m {
            assert(a[n] == line[n]);
            assert(name[n] == '=');
        } else {
            assert(name =~= other) by {
                assert(a == b);
                assert(a.drop_last() == name);
                assert(b.drop_last() == other);
            }
        }
    }
}

/// What was rendered is read back: the lines are the same, where there are
/// any, and none holds a line feed or ends with a carriage return.
pub proof fn law_rendered_lines_are_read_back(lines: Seq<Seq<char>>)
    requires
        lines.len() > 0,
        forall|i: int|
            0 <= i < lines.len() ==> !(#[trigger] lines[i]).contains('\n') && (lines[i].len() > 0
                ==> lines[i].last() != '\r'),
    ensures
        text::lines(rendered(lines)) == lines,
    decreases lines.len(),
{
    let first = lines[0];
    let s = rendered(lines);
    let rest = lines.drop_first();
    let n = first.len() as int;
    assert(s[n] == '\n');
    assert forall|i: int| 0 <= i < n implies s[i] != '\n' by {
        assert(s[i] == first[i]);
        assert(first.contains(first[i]));
    }
    text::lemma_line_end(s, 0);
    let end = text::line_end(s, 0);
    assert(end == n) by {
        if end > n {
            assert(s[n] != '\n');
        }
    }
    assert(s.take(n) == first);
    assert(text::without_return(first) == first);
    if lines.len() == 1 {
        assert(s.skip(n + 1) == Seq::<char>::empty());
        assert(text::lines(Seq::<char>::empty()) == Seq::<Seq<char>>::empty());
        assert(lines == seq![first] + Seq::<Seq<char>>::empty());
    } else {
        assert(s.skip(n + 1) == rendered(rest));
        assert forall|i: int| 0 <= i < rest.len() implies !(#[trigger] rest[i]).contains('\n') && (
        rest[i].len() > 0 ==> rest[i].last() != '\r') by {
            assert(rest[i] == lines[i + 1]);
        }
        law_rendered_lines_are_read_back(rest);
        assert(lines == seq![first] + rest);
    }
}

/// A text that was set never breaks a line apart, unless it holds a line feed
/// itself: the line ends with a quote.
pub proof fn law_set_lines_stay_whole(name: Seq<char>, value: Seq<char>)
    requires
        !name.contains('\n'),
        !value.contains('\n'),
    ensures
        !(assignment(name) + quoted(value)).contains('\n'),
        (assignment(name) + quoted(value)).last() == '"',
{
    let line = assignment(name) + quoted(value);
    lemma_escaped_without(value);
    assert forall|i: int| 0 <= i < line.len() implies line[i] != '\n' by {
        let m = name.len() as int;
        let e = escaped(value);
        if i < m {
            assert(line[i] == name[i]);
            assert(name.contains(name[i]));
        } else if i > m + 1 && i < m + 2 + e.len() {
            assert(line[i] == e[i - m - 2]);
            assert(e.contains(e[i - m - 2]));
        }
    }
}

proof fn lemma_escaped_without(s: Seq<char>)
    requires
        !s.contains('\n'),
    ensures
        !escaped(s).contains('\n'),
    decreases s.len(),
{
    if s.len() > 0 {
        let front = s.drop_last();
        let e = escaped(front);
        assert(s.contains(s.last()));
        assert(!front.contains('\n')) by {
            if front.contains('\n') {
                let i = choose|i: int| 0 <= i < front.len() && front[i] == '\n';
                assert(s[i] == '\n');
            }
        }
        lemma_escaped_without(front);
        assert forall|i: int| 0 <= i < escaped(s).len() implies escaped(s)[i] != '\n' by {
            if i < e.len() {
                assert(escaped(s)[i] == e[i]);
                assert(e.contains(e[i]));
            }
        }
    }
}

/// The configuration file, line by line.
#[derive(Debug, PartialEq, Eq)]
pub struct ConfigText {
    pub lines: Vec<String>,
}

impl View for ConfigText {
    type V = Seq<Seq<char>>;

    open spec fn view(&self) -> Seq<Seq<char>> {
        self.lines.deep_view()
    }
}

impl ConfigText {
    /// The lines of a text.
    pub fn from_text(content: &str) -> (c: ConfigText)
        ensures
            c@ == text::lines(content@),
    {
        ConfigText { lines: text::split_lines(content) }
    }

    /// The text that the lines make.
    pub fn render(&self) -> (r: String)
        ensures
            r@ == rendered(self@),
    {
        let n = self.lines.len();
        let ghost all = self@;
        let mut r = String::new();
        if n == 0 {
            r.push('\n');
            assert(r@ == rendered(all));
            return r;
        }
        let mut i: usize = 0;
        assert(all.skip(0) == all);
        assert(r@ + rendered(all.skip(0)) == rendered(all));
        while i < n - 1
            invariant
                i < n,
                n == self.lines@.len(),
                all == self@,
                all.len() == n,
                r@ + rendered(all.skip(i as int)) == rendered(all),
            decreases n - i,
        {
            let ghost now = all.skip(i as int);
            let ghost sofar = r@;
            r.append(self.lines[i].as_str());
            r.push('\n');
            proof {
                let line = self.lines@[i as int]@;
                assert(now[0] == line);
                assert(now.drop_first() == all.skip(i + 1));
                assert(r@ == sofar + line.push('\n'));
                assert(r@ + rendered(all.skip(i + 1)) == sofar + (line.push('\n') + rendered(
                    all.skip(i + 1),
                )));
            }
            i = i + 1;
        }
        let ghost sofar = r@;
        r.append(self.lines[i].as_str());
        r.push('\n');
        proof {
            let now = all.skip(i as int);
            assert(now[0] == self.lines@[i as int]@);
            assert(r@ == sofar + now[0].push('\n'));
        }
        r
    }

    /// The first line that sets a name, or the number of lines.
    fn find(&self, name: &str) -> (k: usize)
        ensures
            k == position(self@, name@),
    {
        let mut prefix = name.to_owned();
        prefix.push('=');
        let n = self.lines.len();
        let mut k: usize = 0;
        while k < n && !text::starts_with(self.lines[k].as_str(), prefix.as_str())
            invariant
                k <= n,
                n == self.lines@.len(),
                prefix@ == assignment(name@),
                forall|i: int| 0 <= i < k ==> !assigns(#[trigger] self@[i], name@),
            decreases n - k,
        {
            assert(self@[k as int] == self.lines@[k as int]@);
            k = k + 1;
        }
        proof {
            if k < n {
                assert(self@[k as int] == self.lines@[k as int]@);
            }
            lemma_position_at(self@, name@, k as int);
        }
        k
    }

    /// The value that a name has.
    pub fn value(&self, name: &str) -> (r: Option<String>)
        ensures
            r.deep_view() == value_of(self@, name@),
    {
        let k = self.find(name);
        if k == self.lines.len() {
            return None;
        }
        proof {
            lemma_position(self@, name@);
        }
        let line = text::chars_of(self.lines[k].as_str());
        assert(self@[k as int] == line@);
        assert(assigns(line@, name@));
        let n = line.len();
        assert(assignment(name@).len() <= n);
        let skip = text::chars_of(name).len() + 1;
        let rest = text::string_of(vstd::slice::slice_subrange(line.as_slice(), skip, n));
        assert(rest@ == line@.skip(skip as int));
        Some(parse_env_value(rest.as_str()))
    }

    /// Gives a name a value.
    pub fn set(&mut self, name: &str, value: &str)
        ensures
            final(self)@ == with_value(old(self)@, name@, value@),
    {
        let ghost was = self@;
        let k = self.find(name);
        let mut line = name.to_owned();
        line.push('=');
        let quoted = env_quote(value);
        line.append(quoted.as_str());
        let ghost text = line@;
        if k < self.lines.len() {
            self.lines.set(k, line);
            assert(self@ =~= was.update(k as int, text));
        } else {
            self.lines.push(line);
            assert(self@ =~= was.push(text));
        }
    }

    /// Whether a name has a value that is not empty.
    pub fn has(&self, name: &str) -> (r: bool)
        ensures
            r == is_set(self@, name@),
    {
        match self.value(name) {
            Some(value) => !value.as_str().is_empty(),
            None => false,
        }
    }

    /// Whether a certificate and its key are configured.
    pub fn tls_configured(&self) -> (r: bool)
        ensures
            r == has_tls(self@),
    {
        self.has("CHATGPT_BRIDGE_TLS_CERT") && self.has("CHATGPT_BRIDGE_TLS_KEY")
    }

    /// Whether the tunnel is configured.
    pub fn ngrok_enabled(&self) -> (r: bool)
        ensures
            r == has_tunnel(self@),
    {
        match self.value("CHATGPT_BRIDGE_NGROK_ENABLED") {
            Some(value) => {
                let word = text::to_lower(value.as_str());
                let w = word.as_str();
                text::text_eq(w, "1") || text::text_eq(w, "true") || text::text_eq(w, "yes")
                    || text::text_eq(w, "on")
            },
            None => false,
        }
    }
}

/// The value that the text behind a name stands for.
pub fn parse_env_value(value: &str) -> (r: String)
    ensures
        r@ == parsed(value@),
{
    let all = text::chars_of(value);
    let t = text::trim_chars(all.as_slice());
    let n = t.len();
    if n >= 2 && t[0] == '"' && t[n - 1] == '"' {
        let inner = vstd::slice::slice_subrange(t.as_slice(), 1, n - 1);
        let once = unescape(inner, '"');
        let twice = unescape(once.as_slice(), '\\');
        text::string_of(twice.as_slice())
    } else {
        text::string_of(t.as_slice())
    }
}

fn unescape(s: &[char], c: char) -> (r: Vec<char>)
    ensures
        r@ == unescaped(s@, c),
{
    let n = s.len();
    let mut r: Vec<char> = Vec::new();
    let mut i: usize = 0;
    assert(s@.skip(0) == s@);
    assert(r@ + unescaped(s@.skip(0), c) == unescaped(s@, c));
    while i < n
        invariant
            i <= n,
            n == s@.len(),
            r@ + unescaped(s@.skip(i as int), c) == unescaped(s@, c),
        decreases n - i,
    {
        let ghost now = s@.skip(i as int);
        let ghost sofar = r@;
        assert(now[0] == s@[i as int]);
        if n - i >= 2 && s[i] == '\\' && s[i + 1] == c {
            assert(now[1] == s@[i + 1]);
            assert(now.skip(2) == s@.skip(i + 2));
            r.push(c);
            assert(r@ + unescaped(s@.skip(i + 2), c) == sofar + (seq![c] + unescaped(
                s@.skip(i + 2),
                c,
            )));
            i = i + 2;
        } else {
            if n - i >= 2 {
                assert(now[1] == s@[i + 1]);
            }
            assert(now.drop_first() == s@.skip(i + 1));
            r.push(s[i]);
            assert(r@ + unescaped(s@.skip(i + 1), c) == sofar + (seq![now[0]] + unescaped(
                s@.skip(i + 1),
                c,
            )));
            i = i + 1;
        }
    }
    assert(s@.skip(n as int) == Seq::<char>::empty());
    assert(r@ + Seq::<char>::empty() == r@);
    r
}

/// The text in double quotes, as it stands in the file.
pub fn env_quote(value: &str) -> (r: String)
    ensures
        r@ == quoted(value@),
{
    let v = text::chars_of(value);
    let n = v.len();
    let mut r = String::new();
    r.push('"');
    let mut i: usize = 0;
    assert(r@ =~= seq!['"'] + escaped(v@.take(0)));
    while i < n
        invariant
            i <= n,
            n == v@.len(),
            r@ == seq!['"'] + escaped(v@.take(i as int)),
        decreases n - i,
    {
        let ghost next = v@.take(i + 1);
        assert(next.drop_last() == v@.take(i as int));
        assert(next.last() == v@[i as int]);
        let c = v[i];
        if c == '\\' || c == '"' {
            r.push('\\');
        }
        r.push(c);
        assert(r@ =~= seq!['"'] + escaped(next));
        i = i + 1;
    }
    assert(v@.take(n as int) == v@);
    r.push('"');
    assert(r@ =~= quoted(value@));
    r
}

/// A value without quotation marks is what stands there, without white space
/// around it.
pub proof fn law_bare_values_are_read(a: Seq<char>, value: Seq<char>, b: Seq<char>)
    requires
        forall|i: int| 0 <= i < a.len() ==> text::is_space(#[trigger] a[i]),
        forall|i: int| 0 <= i < b.len() ==> text::is_space(#[trigger] b[i]),
        value.len() > 0 ==> !text::is_space(value[0]) && !text::is_space(value.last()),
        value.len() > 0 ==> value[0] != '"' || value.last() != '"',
    ensures
        parsed(a + value + b) == value,
{
    text::law_trimming_takes_white_space_only(a, value, b);
}

/// A value is quoted by a mark at each end; a value without marks and
/// backslashes stands between them as it is.
pub proof fn law_plain_values_are_quoted_as_they_are(value: Seq<char>)
    requires
        !value.contains('"'),
        !value.contains('\\'),
    ensures
        quoted(value) == seq!['"'] + value + seq!['"'],
{
    lemma_nothing_to_escape(value);
}

proof fn lemma_nothing_to_escape(value: Seq<char>)
    requires
        !value.contains('"'),
        !value.contains('\\'),
    ensures
        escaped(value) == value,
    decreases value.len(),
{
    if value.len() > 0 {
        let front = value.drop_last();
        let n = value.len() - 1;
        assert(value[n] != '"' && value[n] != '\\');
        assert(!front.contains('"')) by {
            if front.contains('"') {
                let i = choose|i: int| 0 <= i < front.len() && front[i] == '"';
                assert(value[i] == '"');
            }
        }
        assert(!front.contains('\\')) by {
            if front.contains('\\') {
                let i = choose|i: int| 0 <= i < front.len() && front[i] == '\\';
                assert(value[i] == '\\');
            }
        }
        lemma_nothing_to_escape(front);
        assert(front.push(value.last()) == value);
    }
}

/// The value of a name is the one on the first line that begins with the name
/// and an equals sign; without such a line the name has none.
pub proof fn law_the_first_line_of_a_name_counts(
    before: Seq<Seq<char>>,
    name: Seq<char>,
    value: Seq<char>,
    after: Seq<Seq<char>>,
)
    requires
        forall|i: int|
            0 <= i < before.len() ==> !(name + seq!['=']).is_prefix_of(#[trigger] before[i]),
    ensures
        value_of(before + seq![name + seq!['='] + value] + after, name) == Some(parsed(value)),
        value_of(before, name) is None,
{
    let line = name + seq!['='] + value;
    let lines = before + seq![line] + after;
    let k = before.len() as int;
    assert(name.push('=') == name + seq!['=']);
    assert(lines[k] == line);
    assert(line.take(name.len() as int + 1) == name.push('='));
    assert(line.skip(name.len() as int + 1) == value);
    assert forall|i: int| 0 <= i < k implies !assigns(#[trigger] lines[i], name) by {
        assert(lines[i] == before[i]);
    }
    lemma_position_at(lines, name, k);
    lemma_position_at(before, name, k);
}

/// Setting a value writes one line, that of the name: the first there is, or
/// else a new one at the end. Every other line stays where and as it is.
pub proof fn law_setting_writes_one_line(
    before: Seq<Seq<char>>,
    name: Seq<char>,
    old_value: Seq<char>,
    after: Seq<Seq<char>>,
    value: Seq<char>,
)
    requires
        forall|i: int|
            0 <= i < before.len() ==> !(name + seq!['=']).is_prefix_of(#[trigger] before[i]),
    ensures
        with_value(before + seq![name + seq!['='] + old_value] + after, name, value) == before
            + seq![name + seq!['='] + quoted(value)] + after,
        with_value(before, name, value) == before + seq![name + seq!['='] + quoted(value)],
{
    let line = name + seq!['='] + old_value;
    let lines = before + seq![line] + after;
    let k = before.len() as int;
    assert(name.push('=') == name + seq!['=']);
    assert(lines[k] == line);
    assert(line.take(name.len() as int + 1) == name.push('='));
    assert forall|i: int| 0 <= i < k implies !assigns(#[trigger] lines[i], name) by {
        assert(lines[i] == before[i]);
    }
    lemma_position_at(lines, name, k);
    lemma_position_at(before, name, k);
    let new = name + seq!['='] + quoted(value);
    assert(lines.update(k, new) == before + seq![new] + after);
    assert(before.push(new) == before + seq![new]);
}

/// A switch is on by four words, in any case, and by no others.
pub proof fn law_words_that_switch_on(value: Seq<char>)
    ensures
        ({
            let words = seq!["1"@, "true"@, "yes"@, "on"@];
            is_on(value) <==> words.contains(text::lower_text(value))
        }),
        is_on(value) <==> is_on(text::lower_text(value)),
        is_on(value) <==> is_on(text::upper_text(value)),
{
    let words = seq!["1"@, "true"@, "yes"@, "on"@];
    assert(words[0] == "1"@ && words[1] == "true"@ && words[2] == "yes"@ && words[3] == "on"@);
    assert(text::lower_text(text::lower_text(value)) == text::lower_text(value));
    assert(text::lower_text(text::upper_text(value)) == text::lower_text(value));
}

/// Certificate and key are in use where neither is missing or empty.
pub proof fn law_tls_takes_both_files(lines: Seq<Seq<char>>)
    ensures
        has_tls(lines) <==> (value_of(lines, "CHATGPT_BRIDGE_TLS_CERT"@) matches Some(cert)
            && cert.len() > 0) && (value_of(lines, "CHATGPT_BRIDGE_TLS_KEY"@) matches Some(key)
            && key.len() > 0),
        value_of(lines, "CHATGPT_BRIDGE_NGROK_ENABLED"@) is None ==> !has_tunnel(lines),
{
}

/// In a quoted value a backslash stands before each mark and each backslash of
/// the value, and before nothing else: values are escaped character by
/// character.
pub proof fn law_marks_stand_behind_a_backslash(a: Seq<char>, c: char, b: Seq<char>)
    ensures
        c == '"' || c == '\\' ==> escaped(a + seq![c] + b) == escaped(a) + seq!['\\', c]
            + escaped(b),
        c != '"' && c != '\\' ==> escaped(a + seq![c] + b) == escaped(a) + seq![c] + escaped(b),
        escaped(seq![]) == Seq::<char>::empty(),
        quoted(a) == seq!['"'] + escaped(a) + seq!['"'],
    decreases b.len(),
{
    let s = a + seq![c] + b;
    if b.len() == 0 {
        assert(s.drop_last() == a);
        assert(s.last() == c);
    } else {
        let front = b.drop_last();
        law_marks_stand_behind_a_backslash(a, c, front);
        assert(s.drop_last() == a + seq![c] + front);
        assert(s.last() == b.last());
    }
    if c == '"' || c == '\\' {
        assert(escaped(s) =~= escaped(a) + seq!['\\', c] + escaped(b));
    } else {
        assert(escaped(s) =~= escaped(a) + seq![c] + escaped(b));
    }
}

/// A quoted value is read with white space around the marks, and the white space
/// between them belongs to it.
pub proof fn law_quoted_values_are_read(a: Seq<char>, value: Seq<char>, b: Seq<char>)
    requires
        forall|i: int| 0 <= i < a.len() ==> text::is_space(#[trigger] a[i]),
        forall|i: int| 0 <= i < b.len() ==> text::is_space(#[trigger] b[i]),
    ensures
        parsed(a + quoted(value) + b) == value,
{
    let q = quoted(value);
    assert(q[0] == '"' && q.last() == '"');
    assert(!text::is_space('"'));
    text::law_trimming_takes_white_space_only(a, q, b);
    text::law_trimming_takes_white_space_only(seq![], q, seq![]);
    assert(Seq::<char>::empty() + q + Seq::<char>::empty() == q);
    law_quoted_values_are_read_back(value);
}

} // verus!
