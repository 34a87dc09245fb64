//! The config-file format: one JSON object `{"projects":[...]}` holding the
//! store, each record an object with string fields `dir` and `name`. The
//! writer emits exactly the compact form; the reader accepts whitespace
//! between tokens, either field order, and the standard string escapes.
use vstd::prelude::*;
use crate::store::{find_name, Config, Project, ProjectView};
use crate::text::push_char;

verus! {

/// Key of the record field holding the directory.
pub open spec fn dir_key() -> Seq<char> {
    seq!['d', 'i', 'r']
}

/// Key of the record field holding the name.
pub open spec fn name_key() -> Seq<char> {
    seq!['n', 'a', 'm', 'e']
}

/// Key of the one top-level field.
pub open spec fn projects_key() -> Seq<char> {
    seq!['p', 'r', 'o', 'j', 'e', 'c', 't', 's']
}

/// Lowercase hexadecimal digit for a value below sixteen.
pub open spec fn hex_digit(n: u32) -> char {
    if n == 0 {
        '0'
    } else if n == 1 {
        '1'
    } else if n == 2 {
        '2'
    } else if n == 3 {
        '3'
    } else if n == 4 {
        '4'
    } else if n == 5 {
        '5'
    } else if n == 6 {
        '6'
    } else if n == 7 {
        '7'
    } else if n == 8 {
        '8'
    } else if n == 9 {
        '9'
    } else if n == 10 {
        'a'
    } else if n == 11 {
        'b'
    } else if n == 12 {
        'c'
    } else if n == 13 {
        'd'
    } else if n == 14 {
        'e'
    } else {
        'f'
    }
}

/// How one character is written inside a JSON string: itself, a short
/// backslash escape, or `\u00xx` for the remaining control characters.
pub open spec fn esc_char(c: char) -> Seq<char> {
    if c == '"' {
        seq!['\\', '"']
    } else if c == '\\' {
        seq!['\\', '\\']
    } else if c == '\u{8}' {
        seq!['\\', 'b']
    } else if c == '\t' {
        seq!['\\', 't']
    } else if c == '\n' {
        seq!['\\', 'n']
    } else if c == '\u{c}' {
        seq!['\\', 'f']
    } else if c == '\r' {
        seq!['\\', 'r']
    } else if (c as u32) < 32 {
        seq!['\\', 'u', '0', '0', hex_digit((c as u32) / 16), hex_digit((c as u32) % 16)]
    } else {
        seq![c]
    }
}

/// The escaped body of a JSON string.
pub open spec fn esc(v: Seq<char>) -> Seq<char>
    decreases v.len(),
{
    if v.len() == 0 {
        Seq::empty()
    } else {
        esc_char(v[0]) + esc(v.drop_first())
    }
}

/// A JSON string: quote, escaped body, quote.
pub open spec fn quoted(v: Seq<char>) -> Seq<char> {
    seq!['"'] + esc(v) + seq!['"']
}

/// One record as the writer prints it: `{"dir":"...","name":"..."}`.
pub open spec fn project_json(p: ProjectView) -> Seq<char> {
    seq!['{'] + quoted(dir_key()) + seq![':'] + quoted(p.dir) + seq![','] + quoted(name_key())
        + seq![':'] + quoted(p.name) + seq!['}']
}

/// The comma-separated record list.
pub open spec fn projects_json(ps: Seq<ProjectView>) -> Seq<char>
    decreases ps.len(),
{
    if ps.len() == 0 {
        Seq::empty()
    } else if ps.len() == 1 {
        project_json(ps[0])
    } else {
        project_json(ps[0]) + seq![','] + projects_json(ps.drop_first())
    }
}

/// The whole config file as the writer prints it.
pub open spec fn store_json(ps: Seq<ProjectView>) -> Seq<char> {
    seq!['{'] + quoted(projects_key()) + seq![':', '['] + projects_json(ps) + seq![']', '}']
}

/// JSON whitespace.
pub open spec fn is_ws(c: char) -> bool {
    c == ' ' || c == '\t' || c == '\n' || c == '\r'
}

/// First position at or past `i` holding no whitespace.
pub open spec fn skip_ws(s: Seq<char>, i: int) -> int
    decreases s.len() - i,
{
    if 0 <= i < s.len() && is_ws(s[i]) {
        skip_ws(s, i + 1)
    } else {
        i
    }
}

/// Value of a hexadecimal digit, upper or lower case.
pub open spec fn hex_val(c: char) -> Option<u32> {
    let n = c as u32;
    if 48 <= n <= 57 {
        Some((n - 48) as u32)
    } else if 97 <= n <= 102 {
        Some((n - 87) as u32)
    } else if 65 <= n <= 70 {
        Some((n - 55) as u32)
    } else {
        None
    }
}

/// The character a short backslash escape stands for.
pub open spec fn unesc_short(e: char) -> Option<char> {
    if e == '"' {
        Some('"')
    } else if e == '\\' {
        Some('\\')
    } else if e == '/' {
        Some('/')
    } else if e == 'b' {
        Some('\u{8}')
    } else if e == 'f' {
        Some('\u{c}')
    } else if e == 'n' {
        Some('\n')
    } else if e == 'r' {
        Some('\r')
    } else if e == 't' {
        Some('\t')
    } else {
        None
    }
}

/// Read a JSON string body starting just past the opening quote: the decoded
/// characters and the position just past the closing quote. `\u00xx` escapes
/// are accepted; a raw control character is not.
pub open spec fn parse_str_body(s: Seq<char>, i: int) -> Option<(Seq<char>, int)>
    decreases s.len() - i,
{
    if !(0 <= i < s.len()) {
        None
    } else {
        let c = s[i];
        if c == '"' {
            Some((Seq::empty(), i + 1))
        } else if c == '\\' {
            if i + 1 < s.len() {
                let e = s[i + 1];
                if e == 'u' {
                    if i + 6 <= s.len() && s[i + 2] == '0' && s[i + 3] == '0' {
                        match (hex_val(s[i + 4]), hex_val(s[i + 5])) {
                            (Some(h), Some(l)) => match parse_str_body(s, i + 6) {
                                Some((t, k)) => Some(
                                    (seq![((16 * h + l) as u8) as char] + t, k),
                                ),
                                None => None,
                            },
                            _ => None,
                        }
                    } else {
                        None
                    }
                } else {
                    match unesc_short(e) {
                        Some(d) => match parse_str_body(s, i + 2) {
                            Some((t, k)) => Some((seq![d] + t, k)),
                            None => None,
                        },
                        None => None,
                    }
                }
            } else {
                None
            }
        } else if (c as u32) < 32 {
            None
        } else {
            match parse_str_body(s, i + 1) {
                Some((t, k)) => Some((seq![c] + t, k)),
                None => None,
            }
        }
    }
}

/// Read a JSON string, opening quote included.
pub open spec fn parse_string(s: Seq<char>, i: int) -> Option<(Seq<char>, int)> {
    if 0 <= i < s.len() && s[i] == '"' {
        parse_str_body(s, i + 1)
    } else {
        None
    }
}

/// Read one record object: fields `dir` and `name`, each exactly once, in
/// either order.
pub open spec fn parse_project(s: Seq<char>, i: int) -> Option<(ProjectView, int)> {
    let a = skip_ws(s, i);
    if a < s.len() && s[a] == '{' {
        match parse_string(s, skip_ws(s, a + 1)) {
            Some((k1, b)) => {
                let b2 = skip_ws(s, b);
                if b2 < s.len() && s[b2] == ':' {
                    match parse_string(s, skip_ws(s, b2 + 1)) {
                        Some((v1, d)) => {
                            let d2 = skip_ws(s, d);
                            if d2 < s.len() && s[d2] == ',' {
                                match parse_string(s, skip_ws(s, d2 + 1)) {
                                    Some((k2, f)) => {
                                        let f2 = skip_ws(s, f);
                                        if f2 < s.len() && s[f2] == ':' {
                                            match parse_string(s, skip_ws(s, f2 + 1)) {
                                                Some((v2, h)) => {
                                                    let h2 = skip_ws(s, h);
                                                    if h2 < s.len() && s[h2] == '}' {
                                                        if k1 == dir_key() && k2 == name_key() {
                                                            Some(
                                                                (
                                                                    ProjectView {
                                                                        dir: v1,
                                                                        name: v2,
                                                                    },
                                                                    h2 + 1,
                                                                ),
                                                            )
                                                        } else if k1 == name_key() && k2
                                                            == dir_key() {
                                                            Some(
                                                                (
                                                                    ProjectView {
                                                                        dir: v2,
                                                                        name: v1,
                                                                    },
                                                                    h2 + 1,
                                                                ),
                                                            )
                                                        } else {
                                                            None
                                                        }
                                                    } else {
                                                        None
                                                    }
                                                },
                                                None => None,
                                            }
                                        } else {
                                            None
                                        }
                                    },
                                    None => None,
                                }
                            } else {
                                None
                            }
                        },
                        None => None,
                    }
                } else {
                    None
                }
            },
            None => None,
        }
    } else {
        None
    }
}

/// Read the records after the first one: either the closing bracket, or a
/// comma and a further record, repeatedly.
pub open spec fn parse_rest(s: Seq<char>, i: int) -> Option<(Seq<ProjectView>, int)>
    decreases s.len() - i,
    when 0 <= i <= s.len()
{
    let j = skip_ws(s, i);
    if j < s.len() && s[j] == ']' {
        Some((Seq::empty(), j + 1))
    } else if j < s.len() && s[j] == ',' {
        match parse_project(s, j + 1) {
            Some((p, k)) => {
                if i < k <= s.len() {
                    match parse_rest(s, k) {
                        Some((ps, m)) => Some((seq![p] + ps, m)),
                        None => None,
                    }
                } else {
                    None
                }
            },
            None => None,
        }
    } else {
        None
    }
}

/// Read a record array, opening bracket already consumed.
pub open spec fn parse_array(s: Seq<char>, i: int) -> Option<(Seq<ProjectView>, int)> {
    let j = skip_ws(s, i);
    if j < s.len() && s[j] == ']' {
        Some((Seq::empty(), j + 1))
    } else {
        match parse_project(s, i) {
            Some((p, k)) => {
                if 0 <= k <= s.len() {
                    match parse_rest(s, k) {
                        Some((ps, m)) => Some((seq![p] + ps, m)),
                        None => None,
                    }
                } else {
                    None
                }
            },
            None => None,
        }
    }
}

/// Read a whole config file: `{"projects":[...]}` with nothing but
/// whitespace around the tokens, and nothing after the closing brace.
pub open spec fn parse_store_text(s: Seq<char>) -> Option<Seq<ProjectView>> {
    let a = skip_ws(s, 0);
    if a < s.len() && s[a] == '{' {
        match parse_string(s, skip_ws(s, a + 1)) {
            Some((key, b)) => {
                if key == projects_key() {
                    let b2 = skip_ws(s, b);
                    if b2 < s.len() && s[b2] == ':' {
                        let d = skip_ws(s, b2 + 1);
                        if d < s.len() && s[d] == '[' {
                            match parse_array(s, d + 1) {
                                Some((ps, e)) => {
                                    let f = skip_ws(s, e);
                                    if f < s.len() && s[f] == '}' {
                                        if skip_ws(s, f + 1) == s.len() {
                                            Some(ps)
                                        } else {
                                            None
                                        }
                                    } else {
                                        None
                                    }
                                },
                                None => None,
                            }
                        } else {
                            None
                        }
                    } else {
                        None
                    }
                } else {
                    None
                }
            },
            None => None,
        }
    } else {
        None
    }
}

fn hex_digit_exec(n: u32) -> (c: char)
    requires
        n < 16,
    ensures
        c == hex_digit(n),
{
    if n == 0 {
        '0'
    } else if n == 1 {
        '1'
    } else if n == 2 {
        '2'
    } else if n == 3 {
        '3'
    } else if n == 4 {
        '4'
    } else if n == 5 {
        '5'
    } else if n == 6 {
        '6'
    } else if n == 7 {
        '7'
    } else if n == 8 {
        '8'
    } else if n == 9 {
        '9'
    } else if n == 10 {
        'a'
    } else if n == 11 {
        'b'
    } else if n == 12 {
        'c'
    } else if n == 13 {
        'd'
    } else if n == 14 {
        'e'
    } else {
        'f'
    }
}

fn push_escaped_char(out: &mut String, c: char)
    ensures
        final(out)@ == old(out)@ + esc_char(c),
{
    let ghost o = out@;
    if c == '"' {
        push_char(out, '\\');
        push_char(out, '"');
        proof {
            assert(out@ =~= o + esc_char(c));
        }
    } else if c == '\\' {
        push_char(out, '\\');
        push_char(out, '\\');
        proof {
            assert(out@ =~= o + esc_char(c));
        }
    } else if c == '\u{8}' {
        push_char(out, '\\');
        push_char(out, 'b');
        proof {
            assert(out@ =~= o + esc_char(c));
        }
    } else if c == '\t' {
        push_char(out, '\\');
        push_char(out, 't');
        proof {
            assert(out@ =~= o + esc_char(c));
        }
    } else if c == '\n' {
        push_char(out, '\\');
        push_char(out, 'n');
        proof {
            assert(out@ =~= o + esc_char(c));
        }
    } else if c == '\u{c}' {
        push_char(out, '\\');
        push_char(out, 'f');
        proof {
            assert(out@ =~= o + esc_char(c));
        }
    } else if c == '\r' {
        push_char(out, '\\');
        push_char(out, 'r');
        proof {
            assert(out@ =~= o + esc_char(c));
        }
    } else if (c as u32) < 32 {
        let n = c as u32;
        push_char(out, '\\');
        push_char(out, 'u');
        push_char(out, '0');
        push_char(out, '0');
        push_char(out, hex_digit_exec(n / 16));
        push_char(out, hex_digit_exec(n % 16));
        proof {
            assert(out@ =~= o + esc_char(c));
        }
    } else {
        push_char(out, c);
        proof {
            assert(out@ =~= o + esc_char(c));
        }
    }
}

proof fn lemma_esc_snoc(v: Seq<char>, c: char)
    ensures
        esc(v.push(c)) == esc(v) + esc_char(c),
    decreases v.len(),
{
    let w = v.push(c);
    if v.len() == 0 {
        assert(w[0] == c);
        assert(w.drop_first() =~= Seq::<char>::empty());
        assert(esc(Seq::<char>::empty()) == Seq::<char>::empty());
        assert(esc(w.drop_first()) == Seq::<char>::empty());
        assert(esc(v) == Seq::<char>::empty());
        assert(esc(w) =~= esc(v) + esc_char(c));
    } else {
        assert(w[0] == v[0]);
        assert(w.drop_first() =~= v.drop_first().push(c));
        lemma_esc_snoc(v.drop_first(), c);
        assert(esc(w) =~= esc(v) + esc_char(c));
    }
}

/// Append the escaped body of `s` to `out`.
fn push_escaped(out: &mut String, s: &str)
    ensures
        final(out)@ == old(out)@ + esc(s@),
{
    let n = s.unicode_len();
    let mut i: usize = 0;
    proof {
        assert(esc(s@.take(0)) == Seq::<char>::empty()) by {
            assert(s@.take(0) =~= Seq::<char>::empty());
            assert(esc(Seq::<char>::empty()) == Seq::<char>::empty());
        }
        assert(out@ =~= out@ + esc(s@.take(0)));
    }
    while i < n
        invariant
            n == s@.len(),
            0 <= i <= n,
            out@ == old(out)@ + esc(s@.take(i as int)),
        decreases n - i,
    {
        let c = s.get_char(i);
        proof {
            assert(s@.take(i + 1) =~= s@.take(i as int).push(s@[i as int]));
            lemma_esc_snoc(s@.take(i as int), s@[i as int]);
        }
        push_escaped_char(out, c);
        proof {
            assert(out@ =~= old(out)@ + esc(s@.take(i + 1)));
        }
        i = i + 1;
    }
    proof {
        assert(s@.take(n as int) =~= s@);
    }
}

/// Append the JSON string for `s` to `out`.
fn push_quoted(out: &mut String, s: &str)
    ensures
        final(out)@ == old(out)@ + quoted(s@),
{
    push_char(out, '"');
    push_escaped(out, s);
    push_char(out, '"');
    proof {
        assert(out@ =~= old(out)@ + quoted(s@));
    }
}

/// Append one record to `out`.
fn push_project(out: &mut String, p: &Project)
    ensures
        final(out)@ == old(out)@ + project_json(p@),
{
    proof {
        reveal_strlit("dir");
        reveal_strlit("name");
        assert("dir"@ =~= dir_key());
        assert("name"@ =~= name_key());
    }
    push_char(out, '{');
    push_quoted(out, "dir");
    push_char(out, ':');
    push_quoted(out, p.dir.as_str());
    push_char(out, ',');
    push_quoted(out, "name");
    push_char(out, ':');
    push_quoted(out, p.name.as_str());
    push_char(out, '}');
    proof {
        assert(out@ =~= old(out)@ + project_json(p@));
    }
}

proof fn lemma_projects_json_snoc(ps: Seq<ProjectView>, p: ProjectView)
    ensures
        projects_json(ps.push(p)) == (if ps.len() == 0 {
            project_json(p)
        } else {
            projects_json(ps) + seq![','] + project_json(p)
        }),
    decreases ps.len(),
{
    let w = ps.push(p);
    if ps.len() == 0 {
        assert(w[0] == p);
        assert(projects_json(w) == project_json(p));
    } else {
        assert(w[0] == ps[0]);
        assert(w.drop_first() =~= ps.drop_first().push(p));
        lemma_projects_json_snoc(ps.drop_first(), p);
        if ps.len() == 1 {
            assert(ps.drop_first().len() == 0);
            assert(projects_json(w) =~= projects_json(ps) + seq![','] + project_json(p));
        } else {
            assert(projects_json(w) =~= projects_json(ps) + seq![','] + project_json(p));
        }
    }
}

/// Serialize the whole store, exactly as the writer persists it.
pub fn to_json(c: &Config) -> (r: String)
    ensures
        r@ == store_json(c@),
{
    proof {
        reveal_strlit("projects");
        assert("projects"@ =~= projects_key());
    }
    let mut out = String::new();
    push_char(&mut out, '{');
    push_quoted(&mut out, "projects");
    push_char(&mut out, ':');
    push_char(&mut out, '[');
    let ghost head = out@;
    let n = c.projects.len();
    let mut i: usize = 0;
    proof {
        assert(projects_json(c@.take(0)) == Seq::<char>::empty()) by {
            assert(c@.take(0) =~= Seq::<ProjectView>::empty());
            assert(projects_json(Seq::<ProjectView>::empty()) == Seq::<char>::empty());
        }
        assert(out@ =~= head + projects_json(c@.take(0)));
    }
    while i < n
        invariant
            n == c.projects.len(),
            c@.len() == n,
            0 <= i <= n,
            out@ == head + projects_json(c@.take(i as int)),
        decreases n - i,
    {
        if i > 0 {
            push_char(&mut out, ',');
        }
        proof {
            assert(c@[i as int] == c.projects@[i as int]@);
            assert(c@.take(i + 1) =~= c@.take(i as int).push(c@[i as int]));
            lemma_projects_json_snoc(c@.take(i as int), c@[i as int]);
        }
        push_project(&mut out, &c.projects[i]);
        proof {
            assert(out@ =~= head + projects_json(c@.take(i + 1)));
        }
        i = i + 1;
    }
    push_char(&mut out, ']');
    push_char(&mut out, '}');
    proof {
        assert(c@.take(n as int) =~= c@);
        assert(out@ =~= store_json(c@));
    }
    out
}

fn skip_ws_exec(s: &str, i: usize) -> (r: usize)
    requires
        i <= s@.len(),
    ensures
        r as int == skip_ws(s@, i as int),
        i <= r <= s@.len(),
    decreases s@.len() - i as int,
{
    let n = s.unicode_len();
    if i < n {
        let c = s.get_char(i);
        if c == ' ' || c == '\t' || c == '\n' || c == '\r' {
            return skip_ws_exec(s, i + 1);
        }
    }
    i
}

fn hex_val_exec(c: char) -> (r: Option<u32>)
    ensures
        r == hex_val(c),
{
    let n = c as u32;
    if 48 <= n && n <= 57 {
        Some(n - 48)
    } else if 97 <= n && n <= 102 {
        Some(n - 87)
    } else if 65 <= n && n <= 70 {
        Some(n - 55)
    } else {
        None
    }
}

fn unesc_short_exec(e: char) -> (r: Option<char>)
    ensures
        r == unesc_short(e),
{
    if e == '"' {
        Some('"')
    } else if e == '\\' {
        Some('\\')
    } else if e == '/' {
        Some('/')
    } else if e == 'b' {
        Some('\u{8}')
    } else if e == 'f' {
        Some('\u{c}')
    } else if e == 'n' {
        Some('\n')
    } else if e == 'r' {
        Some('\r')
    } else if e == 't' {
        Some('\t')
    } else {
        None
    }
}

/// Collect decoded characters into a string.
fn chars_to_string(v: &Vec<char>) -> (s: String)
    ensures
        s@ == v@,
{
    let mut s = String::new();
    let n = v.len();
    let mut i: usize = 0;
    while i < n
        invariant
            n == v.len(),
            0 <= i <= n,
            s@ == v@.take(i as int),
        decreases n - i,
    {
        push_char(&mut s, v[i]);
        proof {
            assert(s@ =~= v@.take(i + 1));
        }
        i = i + 1;
    }
    proof {
        assert(v@.take(n as int) =~= v@);
    }
    s
}

fn parse_str_body_exec(s: &str, i: usize) -> (r: Option<(Vec<char>, usize)>)
    requires
        i <= s@.len(),
    ensures
        match parse_str_body(s@, i as int) {
            Some(t) => r matches Some(q) && q.0@ == t.0 && q.1 as int == t.1,
            None => r is None,
        },
    decreases s@.len() - i as int,
{
    let n = s.unicode_len();
    if i >= n {
        return None;
    }
    let c = s.get_char(i);
    if c == '"' {
        let v: Vec<char> = Vec::new();
        proof {
            assert(v@ =~= Seq::<char>::empty());
        }
        Some((v, i + 1))
    } else if c == '\\' {
        if i + 1 < n {
            let e = s.get_char(i + 1);
            if e == 'u' {
                if n - i >= 6 && s.get_char(i + 2) == '0' && s.get_char(i + 3) == '0' {
                    let h = hex_val_exec(s.get_char(i + 4));
                    let l = hex_val_exec(s.get_char(i + 5));
                    match (h, l) {
                        (Some(hv), Some(lv)) => {
                            let d = ((16 * hv + lv) as u8) as char;
                            match parse_str_body_exec(s, i + 6) {
                                Some((mut v, k)) => {
                                    v.insert(0, d);
                                    proof {
                                        let t = parse_str_body(s@, (i + 6) as int)->Some_0;
                                        assert(v@ =~= seq![d] + t.0);
                                    }
                                    Some((v, k))
                                },
                                None => None,
                            }
                        },
                        _ => None,
                    }
                } else {
                    None
                }
            } else {
                match unesc_short_exec(e) {
                    Some(d) => {
                        match parse_str_body_exec(s, i + 2) {
                            Some((mut v, k)) => {
                                v.insert(0, d);
                                proof {
                                    let t = parse_str_body(s@, (i + 2) as int)->Some_0;
                                    assert(v@ =~= seq![d] + t.0);
                                }
                                Some((v, k))
                            },
                            None => None,
                        }
                    },
                    None => None,
                }
            }
        } else {
            None
        }
    } else if (c as u32) < 32 {
        None
    } else {
        match parse_str_body_exec(s, i + 1) {
            Some((mut v, k)) => {
                v.insert(0, c);
                proof {
                    let t = parse_str_body(s@, (i + 1) as int)->Some_0;
                    assert(v@ =~= seq![c] + t.0);
                }
                Some((v, k))
            },
            None => None,
        }
    }
}

fn parse_string_exec(s: &str, i: usize) -> (r: Option<(Vec<char>, usize)>)
    requires
        i <= s@.len(),
    ensures
        match parse_string(s@, i as int) {
            Some(t) => r matches Some(q) && q.0@ == t.0 && q.1 as int == t.1,
            None => r is None,
        },
{
    let n = s.unicode_len();
    if i < n && s.get_char(i) == '"' {
        parse_str_body_exec(s, i + 1)
    } else {
        None
    }
}

fn parse_project_exec(s: &str, i: usize) -> (r: Option<(Project, usize)>)
    requires
        i <= s@.len(),
    ensures
        match parse_project(s@, i as int) {
            Some(t) => r matches Some(q) && q.0@ == t.0 && q.1 as int == t.1
                && t.1 <= s@.len(),
            None => r is None,
        },
{
    proof {
        reveal_strlit("dir");
        reveal_strlit("name");
        assert("dir"@ =~= dir_key());
        assert("name"@ =~= name_key());
    }
    let n = s.unicode_len();
    let a = skip_ws_exec(s, i);
    if !(a < n && s.get_char(a) == '{') {
        return None;
    }
    let w1 = skip_ws_exec(s, a + 1);
    let r1 = parse_string_exec(s, w1);
    match r1 {
        None => None,
        Some((k1v, b)) => {
            proof {
                assert(b as int == parse_string(s@, w1 as int)->Some_0.1);
                lemma_parse_string_bounds(s@, w1 as int);
            }
            let b2 = skip_ws_exec(s, b);
            if !(b2 < n && s.get_char(b2) == ':') {
                return None;
            }
            let w2 = skip_ws_exec(s, b2 + 1);
            let r2 = parse_string_exec(s, w2);
            match r2 {
                None => None,
                Some((v1v, d)) => {
                    proof {
                        lemma_parse_string_bounds(s@, w2 as int);
                    }
                    let d2 = skip_ws_exec(s, d);
                    if !(d2 < n && s.get_char(d2) == ',') {
                        return None;
                    }
                    let w3 = skip_ws_exec(s, d2 + 1);
                    let r3 = parse_string_exec(s, w3);
                    match r3 {
                        None => None,
                        Some((k2v, f)) => {
                            proof {
                                lemma_parse_string_bounds(s@, w3 as int);
                            }
                            let f2 = skip_ws_exec(s, f);
                            if !(f2 < n && s.get_char(f2) == ':') {
                                return None;
                            }
                            let w4 = skip_ws_exec(s, f2 + 1);
                            let r4 = parse_string_exec(s, w4);
                            match r4 {
                                None => None,
                                Some((v2v, h)) => {
                                    proof {
                                        lemma_parse_string_bounds(s@, w4 as int);
                                    }
                                    let h2 = skip_ws_exec(s, h);
                                    if !(h2 < n && s.get_char(h2) == '}') {
                                        return None;
                                    }
                                    let k1 = chars_to_string(&k1v);
                                    let k2 = chars_to_string(&k2v);
                                    let v1 = chars_to_string(&v1v);
                                    let v2 = chars_to_string(&v2v);
                                    if crate::text::str_eq(k1.as_str(), "dir")
                                        && crate::text::str_eq(k2.as_str(), "name") {
                                        Some((Project { dir: v1, name: v2 }, h2 + 1))
                                    } else if crate::text::str_eq(k1.as_str(), "name")
                                        && crate::text::str_eq(k2.as_str(), "dir") {
                                        Some((Project { dir: v2, name: v1 }, h2 + 1))
                                    } else {
                                        None
                                    }
                                },
                            }
                        },
                    }
                },
            }
        },
    }
}

proof fn lemma_parse_str_body_bounds(s: Seq<char>, i: int)
    requires
        0 <= i <= s.len(),
    ensures
        parse_str_body(s, i) matches Some(t) ==> i < t.1 <= s.len(),
    decreases s.len() - i,
{
    if 0 <= i < s.len() {
        let c = s[i];
        if c == '\\' && i + 1 < s.len() {
            if s[i + 1] == 'u' {
                if i + 6 <= s.len() {
                    lemma_parse_str_body_bounds(s, i + 6);
                }
            } else {
                lemma_parse_str_body_bounds(s, i + 2);
            }
        } else if c != '"' {
            if i + 1 <= s.len() {
                lemma_parse_str_body_bounds(s, i + 1);
            }
        }
    }
}

proof fn lemma_parse_string_bounds(s: Seq<char>, i: int)
    requires
        0 <= i <= s.len(),
    ensures
        parse_string(s, i) matches Some(t) ==> i < t.1 <= s.len(),
{
    if 0 <= i < s.len() && s[i] == '"' {
        lemma_parse_str_body_bounds(s, i + 1);
    }
}

fn parse_rest_exec(s: &str, i: usize) -> (r: Option<(Vec<Project>, usize)>)
    requires
        i <= s@.len(),
    ensures
        match parse_rest(s@, i as int) {
            Some(t) => r matches Some(q) && q.0@.map_values(|p: Project| p@) == t.0 && q.1 as int
                == t.1 && t.1 <= s@.len(),
            None => r is None,
        },
    decreases s@.len() - i as int,
{
    let n = s.unicode_len();
    let j = skip_ws_exec(s, i);
    if j < n && s.get_char(j) == ']' {
        let v: Vec<Project> = Vec::new();
        proof {
            assert(v@.map_values(|p: Project| p@) =~= Seq::<ProjectView>::empty());
        }
        return Some((v, j + 1));
    }
    if !(j < n && s.get_char(j) == ',') {
        return None;
    }
    match parse_project_exec(s, j + 1) {
        None => None,
        Some((p, k)) => {
            if i < k && k <= n {
                match parse_rest_exec(s, k) {
                    None => None,
                    Some((v, m)) => {
                        let ghost vv = v@;
                        let ghost pv = p@;
                        let mut v2 = v;
                        v2.insert(0, p);
                        proof {
                            let t = parse_rest(s@, k as int)->Some_0;
                            vv.insert_ensures(0, p);
                            assert(v2@.map_values(|q: Project| q@) =~= seq![pv] + t.0) by {
                                assert forall|x: int| 0 <= x < v2@.len() implies (#[trigger] v2@[x])@
                                    == (seq![pv] + t.0)[x] by {
                                    if x == 0 {
                                        assert(v2@[0] == p);
                                    } else {
                                        assert(v2@[x] == vv[x - 1]);
                                    }
                                }
                            }
                        }
                        Some((v2, m))
                    },
                }
            } else {
                None
            }
        },
    }
}

fn parse_array_exec(s: &str, i: usize) -> (r: Option<(Vec<Project>, usize)>)
    requires
        i <= s@.len(),
    ensures
        match parse_array(s@, i as int) {
            Some(t) => r matches Some(q) && q.0@.map_values(|p: Project| p@) == t.0 && q.1 as int
                == t.1 && t.1 <= s@.len(),
            None => r is None,
        },
{
    let n = s.unicode_len();
    let j = skip_ws_exec(s, i);
    if j < n && s.get_char(j) == ']' {
        let v: Vec<Project> = Vec::new();
        proof {
            assert(v@.map_values(|p: Project| p@) =~= Seq::<ProjectView>::empty());
        }
        return Some((v, j + 1));
    }
    match parse_project_exec(s, i) {
        None => None,
        Some((p, k)) => {
            if k <= n {
                match parse_rest_exec(s, k) {
                    None => None,
                    Some((v, m)) => {
                        let ghost vv = v@;
                        let ghost pv = p@;
                        let mut v2 = v;
                        v2.insert(0, p);
                        proof {
                            let t = parse_rest(s@, k as int)->Some_0;
                            vv.insert_ensures(0, p);
                            assert(v2@.map_values(|q: Project| q@) =~= seq![pv] + t.0) by {
                                assert forall|x: int| 0 <= x < v2@.len() implies (#[trigger] v2@[x])@
                                    == (seq![pv] + t.0)[x] by {
                                    if x == 0 {
                                        assert(v2@[0] == p);
                                    } else {
                                        assert(v2@[x] == vv[x - 1]);
                                    }
                                }
                            }
                        }
                        Some((v2, m))
                    },
                }
            } else {
                None
            }
        },
    }
}

/// Parse a whole config file, exactly as `parse_store_text` reads it: the
/// store on success, nothing on any malformed input.
pub fn from_json(s: &str) -> (r: Option<Config>)
    ensures
        match parse_store_text(s@) {
            Some(ps) => r matches Some(c) && c@ == ps,
            None => r is None,
        },
{
    proof {
        reveal_strlit("projects");
        assert("projects"@ =~= projects_key());
    }
    let n = s.unicode_len();
    let a = skip_ws_exec(s, 0);
    if !(a < n && s.get_char(a) == '{') {
        return None;
    }
    let w1 = skip_ws_exec(s, a + 1);
    match parse_string_exec(s, w1) {
        None => None,
        Some((keyv, b)) => {
            proof {
                lemma_parse_string_bounds(s@, w1 as int);
            }
            let key = chars_to_string(&keyv);
            if !crate::text::str_eq(key.as_str(), "projects") {
                return None;
            }
            let b2 = skip_ws_exec(s, b);
            if !(b2 < n && s.get_char(b2) == ':') {
                return None;
            }
            let d = skip_ws_exec(s, b2 + 1);
            if !(d < n && s.get_char(d) == '[') {
                return None;
            }
            match parse_array_exec(s, d + 1) {
                None => None,
                Some((v, e)) => {
                    let f = skip_ws_exec(s, e);
                    if !(f < n && s.get_char(f) == '}') {
                        return None;
                    }
                    let g = skip_ws_exec(s, f + 1);
                    if g != n {
                        return None;
                    }
                    let c = Config { projects: v };
                    Some(c)
                },
            }
        },
    }
}

proof fn lemma_char_byte_cast(c: char)
    requires
        (c as u32) < 256,
    ensures
        (((c as u32) as u8) as char) == c,
{
}

proof fn lemma_hex_digit_val(n: u32)
    requires
        n < 16,
    ensures
        hex_val(hex_digit(n)) == Some(n),
{
}

/// Escaping leaves a sequence of ordinary characters untouched.
proof fn lemma_esc_plain(v: Seq<char>)
    requires
        forall|x: int|
            0 <= x < v.len() ==> 32 <= (#[trigger] v[x]) as u32 && v[x] != '"' && v[x] != '\\',
    ensures
        esc(v) == v,
    decreases v.len(),
{
    if v.len() == 0 {
        assert(esc(v) =~= v);
    } else {
        assert(32 <= v[0] as u32);
        assert(esc_char(v[0]) == seq![v[0]]);
        assert forall|x: int|
            0 <= x < v.drop_first().len() implies 32 <= (#[trigger] v.drop_first()[x]) as u32
            && v.drop_first()[x] != '"' && v.drop_first()[x] != '\\' by {
            assert(v.drop_first()[x] == v[x + 1]);
        }
        lemma_esc_plain(v.drop_first());
        assert(esc(v) =~= v);
    }
}

/// Reading an escaped string body undoes the escaping: if the text from `i`
/// on holds `esc(v)` and then a closing quote, the parser returns `v` and
/// stops just past that quote.
proof fn lemma_parse_str_body_esc(s: Seq<char>, i: int, v: Seq<char>)
    requires
        0 <= i,
        i + esc(v).len() + 1 <= s.len(),
        forall|x: int| 0 <= x < esc(v).len() ==> s[i + x] == #[trigger] esc(v)[x],
        s[i + esc(v).len()] == '"',
    ensures
        parse_str_body(s, i) == Some((v, i + esc(v).len() + 1)),
    decreases v.len(),
{
    if v.len() == 0 {
        assert(esc(v) == Seq::<char>::empty());
        assert(s[i] == '"');
        assert(v =~= Seq::<char>::empty());
    } else {
        let c = v[0];
        let v1 = v.drop_first();
        let e = esc_char(c);
        assert(esc(v) == e + esc(v1));
        let el = e.len();
        let j = i + el;
        assert(1 <= el <= 6);
        // every character of `e` stands in `s` at offset `i`
        assert forall|x: int| 0 <= x < el implies s[i + x] == e[x] by {
            assert(s[i + x] == esc(v)[x]);
            assert(esc(v)[x] == e[x]);
        }
        // the tail `esc(v1)` stands at offset `j`, with the quote after it
        assert forall|x: int| 0 <= x < esc(v1).len() implies s[j + x] == #[trigger] esc(
            v1,
        )[x] by {
            assert(s[i + (el + x)] == esc(v)[el + x]);
            assert(esc(v)[el + x] == esc(v1)[x]);
        }
        assert(j + esc(v1).len() == i + esc(v).len());
        assert(s[j + esc(v1).len()] == '"');
        lemma_parse_str_body_esc(s, j, v1);
        assert(seq![c] + v1 =~= v);
        if c == '"' || c == '\\' || c == '\u{8}' || c == '\t' || c == '\n' || c == '\u{c}' || c
            == '\r' {
            assert(el == 2 && e[0] == '\\' && e[1] != 'u' && unesc_short(e[1]) == Some(c));
            assert(s[i] == '\\' && s[i + 1] == e[1]);
            assert(parse_str_body(s, i) == Some((seq![c] + v1, j + esc(v1).len() + 1)));
        } else if (c as u32) < 32 {
            let cu = c as u32;
            let h = cu / 16;
            let l = cu % 16;
            assert(16 * h + l == cu && h < 16 && l < 16);
            assert(e == seq!['\\', 'u', '0', '0', hex_digit(h), hex_digit(l)]);
            assert(s[i] == '\\' && s[i + 1] == 'u' && s[i + 2] == '0' && s[i + 3] == '0');
            assert(s[i + 4] == hex_digit(h) && s[i + 5] == hex_digit(l));
            lemma_hex_digit_val(h);
            lemma_hex_digit_val(l);
            lemma_char_byte_cast(c);
            assert((16 * h + l) as u8 == (c as u32) as u8);
            assert(((16 * h + l) as u8) as char == c);
            assert(parse_str_body(s, i) == Some((seq![c] + v1, j + esc(v1).len() + 1)));
        } else {
            assert(e == seq![c]);
            assert(s[i] == c);
            assert(parse_str_body(s, i) == Some((seq![c] + v1, j + esc(v1).len() + 1)));
        }
    }
}

/// Reading a quoted string undoes `quoted`.
proof fn lemma_parse_string_quoted(s: Seq<char>, i: int, v: Seq<char>)
    requires
        0 <= i,
        i + quoted(v).len() <= s.len(),
        forall|x: int| 0 <= x < quoted(v).len() ==> s[i + x] == #[trigger] quoted(v)[x],
    ensures
        parse_string(s, i) == Some((v, i + quoted(v).len())),
{
    let q = quoted(v);
    assert(q.len() == esc(v).len() + 2);
    assert(s[i + 0] == q[0]);
    assert(q[0] == '"');
    assert forall|x: int| 0 <= x < esc(v).len() implies s[(i + 1) + x] == #[trigger] esc(
        v,
    )[x] by {
        assert(s[i + (1 + x)] == q[1 + x]);
        assert(q[1 + x] == esc(v)[x]);
    }
    assert(s[i + (1 + esc(v).len() as int)] == q[1 + esc(v).len() as int]);
    assert(q[1 + esc(v).len() as int] == '"');
    assert(s[(i + 1) + esc(v).len()] == '"');
    lemma_parse_str_body_esc(s, i + 1, v);
}

/// Characters of `seg` stand in `s` at offset `i + off` whenever `w` stands
/// at offset `i` and `seg` stands inside `w` at offset `off`.
proof fn lemma_chunk(s: Seq<char>, i: int, w: Seq<char>, off: int, seg: Seq<char>)
    requires
        0 <= i,
        0 <= off,
        off + seg.len() <= w.len(),
        i + w.len() <= s.len(),
        forall|x: int| 0 <= x < w.len() ==> s[i + x] == #[trigger] w[x],
        forall|x: int| 0 <= x < seg.len() ==> w[off + x] == #[trigger] seg[x],
    ensures
        forall|x: int| 0 <= x < seg.len() ==> s[i + off + x] == #[trigger] seg[x],
{
    assert forall|x: int| 0 <= x < seg.len() implies s[i + off + x] == seg[x] by {
        assert(w[off + x] == seg[x]);
        assert(s[i + (off + x)] == w[off + x]);
    }
}

/// Reading one record undoes `project_json`.
proof fn lemma_parse_project_json(s: Seq<char>, i: int, p: ProjectView)
    requires
        0 <= i,
        i + project_json(p).len() <= s.len(),
        forall|x: int| 0 <= x < project_json(p).len() ==> s[i + x] == #[trigger] project_json(
            p,
        )[x],
    ensures
        parse_project(s, i) == Some((p, i + project_json(p).len())),
{
    let pj = project_json(p);
    let qb = quoted(dir_key());
    let qd = quoted(p.dir);
    let qf = quoted(name_key());
    let qh = quoted(p.name);
    let o1 = i + 1;
    let o2 = o1 + qb.len() as int;
    let o3 = o2 + 1;
    let o4 = o3 + qd.len() as int;
    let o5 = o4 + 1;
    let o6 = o5 + qf.len() as int;
    let o7 = o6 + 1;
    let o8 = o7 + qh.len() as int;
    assert(pj.len() == qb.len() + qd.len() + qf.len() + qh.len() + 5);
    assert(pj[0] == '{');
    assert forall|x: int| 0 <= x < qb.len() implies pj[1 + x] == #[trigger] qb[x] by {}
    assert(pj[(o2 - i) as int] == ':');
    assert forall|x: int| 0 <= x < qd.len() implies pj[(o3 - i) + x] == #[trigger] qd[x] by {}
    assert(pj[(o4 - i) as int] == ',');
    assert forall|x: int| 0 <= x < qf.len() implies pj[(o5 - i) + x] == #[trigger] qf[x] by {}
    assert(pj[(o6 - i) as int] == ':');
    assert forall|x: int| 0 <= x < qh.len() implies pj[(o7 - i) + x] == #[trigger] qh[x] by {}
    assert(pj[(o8 - i) as int] == '}');
    assert(s[i + 0] == pj[0]);
    assert(s[i + (o2 - i)] == pj[o2 - i]);
    assert(s[i + (o4 - i)] == pj[o4 - i]);
    assert(s[i + (o6 - i)] == pj[o6 - i]);
    assert(s[i + (o8 - i)] == pj[o8 - i]);
    lemma_chunk(s, i, pj, 1, qb);
    lemma_chunk(s, i, pj, o3 - i, qd);
    lemma_chunk(s, i, pj, o5 - i, qf);
    lemma_chunk(s, i, pj, o7 - i, qh);
    assert(skip_ws(s, i) == i);
    assert(skip_ws(s, o1) == o1) by {
        assert(s[i + 1] == pj[1]);
        assert(pj[1] == '"');
    }
    assert(s[(i + 1) + 0] == quoted(dir_key())[0]);
    lemma_parse_string_quoted(s, o1, dir_key());
    assert(skip_ws(s, o2) == o2);
    assert(skip_ws(s, o3) == o3) by {
        assert(s[i + (o3 - i)] == pj[o3 - i]);
        assert(pj[o3 - i] == '"');
    }
    lemma_parse_string_quoted(s, o3, p.dir);
    assert(skip_ws(s, o4) == o4);
    assert(skip_ws(s, o5) == o5) by {
        assert(s[i + (o5 - i)] == pj[o5 - i]);
        assert(pj[o5 - i] == '"');
    }
    lemma_parse_string_quoted(s, o5, name_key());
    assert(skip_ws(s, o6) == o6);
    assert(skip_ws(s, o7) == o7) by {
        assert(s[i + (o7 - i)] == pj[o7 - i]);
        assert(pj[o7 - i] == '"');
    }
    lemma_parse_string_quoted(s, o7, p.name);
    assert(skip_ws(s, o8) == o8);
    assert(dir_key() != name_key());
    assert(ProjectView { dir: p.dir, name: p.name } =~= p);
    assert(parse_project(s, i) == Some((p, o8 + 1)));
}

/// The text a record list leaves after its first record: for each further
/// record a comma and the record, then the closing bracket.
pub open spec fn tail_json(ps: Seq<ProjectView>) -> Seq<char>
    decreases ps.len(),
{
    if ps.len() == 0 {
        seq![']']
    } else {
        seq![','] + project_json(ps[0]) + tail_json(ps.drop_first())
    }
}

proof fn lemma_parse_rest_json(s: Seq<char>, i: int, ps: Seq<ProjectView>)
    requires
        0 <= i,
        i + tail_json(ps).len() <= s.len(),
        forall|x: int| 0 <= x < tail_json(ps).len() ==> s[i + x] == #[trigger] tail_json(ps)[x],
    ensures
        parse_rest(s, i) == Some((ps, i + tail_json(ps).len())),
    decreases ps.len(),
{
    let w = tail_json(ps);
    if ps.len() == 0 {
        assert(s[i + 0] == w[0]);
        assert(w[0] == ']');
        assert(skip_ws(s, i) == i);
        assert(ps =~= Seq::<ProjectView>::empty());
    } else {
        let pj = project_json(ps[0]);
        let tl = tail_json(ps.drop_first());
        assert(w == seq![','] + pj + tl);
        assert(s[i + 0] == w[0]);
        assert(w[0] == ',');
        assert(skip_ws(s, i) == i);
        assert forall|x: int| 0 <= x < pj.len() implies w[1 + x] == #[trigger] pj[x] by {}
        lemma_chunk(s, i, w, 1, pj);
        lemma_parse_project_json(s, i + 1, ps[0]);
        let k = i + 1 + pj.len() as int;
        assert forall|x: int| 0 <= x < tl.len() implies w[(k - i) + x] == #[trigger] tl[x] by {}
        lemma_chunk(s, i, w, k - i, tl);
        lemma_parse_rest_json(s, k, ps.drop_first());
        assert(i < k <= s.len());
        assert(seq![ps[0]] + ps.drop_first() =~= ps);
        assert(parse_rest(s, i) == Some((ps, k + tl.len())));
    }
}

proof fn lemma_tail_of_projects(ps: Seq<ProjectView>)
    requires
        ps.len() > 0,
    ensures
        projects_json(ps) + seq![']'] == project_json(ps[0]) + tail_json(ps.drop_first()),
    decreases ps.len(),
{
    if ps.len() == 1 {
        assert(ps.drop_first().len() == 0);
        assert(tail_json(ps.drop_first()) == seq![']']);
        assert(projects_json(ps) + seq![']'] =~= project_json(ps[0]) + tail_json(
            ps.drop_first(),
        ));
    } else {
        let q = ps.drop_first();
        let a = project_json(ps[0]);
        let m = projects_json(q);
        lemma_tail_of_projects(q);
        assert(projects_json(ps) == a + seq![','] + m);
        assert(m + seq![']'] == project_json(q[0]) + tail_json(q.drop_first()));
        assert(tail_json(q) == seq![','] + project_json(q[0]) + tail_json(q.drop_first()));
        assert(tail_json(q) =~= seq![','] + (m + seq![']']));
        assert(projects_json(ps) + seq![']'] =~= a + tail_json(q));
    }
}

proof fn lemma_parse_array_json(s: Seq<char>, i: int, ps: Seq<ProjectView>)
    requires
        0 <= i,
        i + projects_json(ps).len() + 1 <= s.len(),
        forall|x: int|
            0 <= x < projects_json(ps).len() + 1 ==> s[i + x] == #[trigger] (projects_json(ps)
                + seq![']'])[x],
    ensures
        parse_array(s, i) == Some((ps, i + projects_json(ps).len() + 1)),
{
    let w = projects_json(ps) + seq![']'];
    if ps.len() == 0 {
        assert(s[i + 0] == w[0]);
        assert(w[0] == ']');
        assert(skip_ws(s, i) == i);
        assert(ps =~= Seq::<ProjectView>::empty());
    } else {
        let pj = project_json(ps[0]);
        let tl = tail_json(ps.drop_first());
        lemma_tail_of_projects(ps);
        assert(w == pj + tl);
        assert(s[i + 0] == w[0]);
        assert(w[0] == '{');
        assert(skip_ws(s, i) == i);
        assert forall|x: int| 0 <= x < pj.len() implies w[0 + x] == #[trigger] pj[x] by {}
        lemma_chunk(s, i, w, 0, pj);
        lemma_parse_project_json(s, i, ps[0]);
        let k = i + pj.len() as int;
        assert forall|x: int| 0 <= x < tl.len() implies w[(k - i) + x] == #[trigger] tl[x] by {}
        lemma_chunk(s, i, w, k - i, tl);
        lemma_parse_rest_json(s, k, ps.drop_first());
        assert(seq![ps[0]] + ps.drop_first() =~= ps);
        assert(parse_array(s, i) == Some((ps, k + tl.len())));
    }
}

/// Law: saving a store and loading it back yields exactly the same records.
/// Whatever characters the names and directories hold, the reader undoes the
/// writer.
pub proof fn lemma_save_load_round_trip(ps: Seq<ProjectView>)
    ensures
        parse_store_text(store_json(ps)) == Some(ps),
{
    let s = store_json(ps);
    let qk = quoted(projects_key());
    let d = 2 + qk.len() as int;
    let arr = projects_json(ps) + seq![']'];
    assert(s == seq!['{'] + qk + seq![':', '['] + projects_json(ps) + seq![']', '}']);
    assert forall|x: int| 0 <= x < s.len() implies s[0 + x] == #[trigger] s[x] by {}
    assert(s[0] == '{');
    assert(skip_ws(s, 0) == 0);
    assert forall|x: int| 0 <= x < qk.len() implies s[1 + x] == #[trigger] qk[x] by {}
    assert(s[(1 + 0) as int] == qk[0]);
    assert(qk[0] == '"');
    assert(skip_ws(s, 1) == 1);
    lemma_parse_string_quoted(s, 1, projects_key());
    let b = 1 + qk.len() as int;
    assert(s[b] == ':');
    assert(skip_ws(s, b) == b);
    assert(s[b + 1] == '[');
    assert(skip_ws(s, b + 1) == b + 1);
    assert forall|x: int| 0 <= x < arr.len() implies s[(b + 2) + x] == #[trigger] arr[x] by {
        if x < projects_json(ps).len() {
            assert(arr[x] == projects_json(ps)[x]);
        } else {
            assert(arr[x] == ']');
        }
    }
    lemma_parse_array_json(s, b + 2, ps);
    let e = b + 2 + projects_json(ps).len() as int + 1;
    assert(s[e] == '}');
    assert(skip_ws(s, e) == e);
    assert(e + 1 == s.len());
    assert(skip_ws(s, e + 1) == s.len());
    assert(parse_store_text(s) == Some(ps));
}

/// Law: what the store knows of a name survives a save and a reload: a name
/// found before saving is found, at the same record, after loading the saved
/// text back. A duplicate add is therefore still rejected after a restart.
pub proof fn lemma_names_persist_across_reload(ps: Seq<ProjectView>, n: Seq<char>)
    ensures
        parse_store_text(store_json(ps)) == Some(ps),
        find_name(ps, n) is Some ==> find_name(
            parse_store_text(store_json(ps))->Some_0,
            n,
        ) is Some,
{
    lemma_save_load_round_trip(ps);
}

} // verus!
