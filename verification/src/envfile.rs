//! The variable namespace: `*.env` files plus the process environment.

use vstd::prelude::*;

use crate::error::{Error, ErrorCode};
use crate::text::{
    chars_of, concat3, concat4, count_text, find_char, first_index, lemma_first_index, slice_vec,
    split_chars, split_on, string_of, trim_chars, trim_spec,
};

verus! {

/// A character that may start a variable name: a letter or `_`.
pub open spec fn is_name_start(c: char) -> bool {
    c == '_' || ('a' <= c && c <= 'z') || ('A' <= c && c <= 'Z')
}

/// A character that may continue a variable name: a letter, digit, or `_`.
pub open spec fn is_name_char(c: char) -> bool {
    is_name_start(c) || ('0' <= c && c <= '9')
}

/// A name is `[A-Za-z_][A-Za-z0-9_]*`.
pub open spec fn var_name_spec(s: Seq<char>) -> bool {
    s.len() > 0 && is_name_start(s[0]) && forall|i: int| 1 <= i < s.len() ==> is_name_char(#[trigger] s[i])
}

/// Whether `c` may start a variable name.
pub fn name_start(c: char) -> (r: bool)
    ensures
        r == is_name_start(c),
{
    c == '_' || ('a' <= c && c <= 'z') || ('A' <= c && c <= 'Z')
}

/// Whether `c` may continue a variable name.
pub fn name_char(c: char) -> (r: bool)
    ensures
        r == is_name_char(c),
{
    name_start(c) || ('0' <= c && c <= '9')
}

/// Whether the characters form a variable name.
pub fn is_var_name_chars(s: &Vec<char>) -> (r: bool)
    ensures
        r == var_name_spec(s@),
{
    if s.len() == 0 || !name_start(s[0]) {
        return false;
    }
    let mut i: usize = 1;
    while i < s.len()
        invariant
            1 <= i <= s.len(),
            forall|j: int| 1 <= j < i ==> is_name_char(#[trigger] s@[j]),
        decreases s.len() - i,
    {
        if !name_char(s[i]) {
            return false;
        }
        i = i + 1;
    }
    true
}

/// Whether `name` is `[A-Za-z_][A-Za-z0-9_]*`.
pub fn is_var_name(name: &str) -> (r: bool)
    ensures
        r == var_name_spec(name@),
{
    let c = chars_of(name);
    is_var_name_chars(&c)
}

/// One layer of matching single or double quotes stripped; no escape
/// processing.
pub open spec fn unquote_spec(v: Seq<char>) -> Seq<char> {
    if v.len() >= 2 && (v[0] == '"' || v[0] == '\'') && v[0] == v.last() {
        v.subrange(1, v.len() - 1)
    } else {
        v
    }
}

fn unquote(v: &Vec<char>) -> (r: Vec<char>)
    ensures
        r@ == unquote_spec(v@),
{
    if v.len() >= 2 && (v[0] == '"' || v[0] == '\'') && v[0] == v[v.len() - 1] {
        slice_vec(v, 1, v.len() - 1)
    } else {
        slice_vec(v, 0, v.len())
    }
}

/// What one line of a `*.env` file is.
pub enum EnvLine {
    /// A blank line or a `#` comment.
    Blank,
    /// `NAME=value`.
    Pair(Seq<char>, Seq<char>),
    /// Anything else, which is `E_PARSE`.
    Bad,
}

/// The `*.env` line grammar: the line is trimmed; blank or `#` lines are
/// skipped; otherwise the name is the text before the first `=`, taken
/// verbatim, and the value the trimmed text after it, unquoted.
pub open spec fn env_line_spec(line: Seq<char>) -> EnvLine {
    let t = trim_spec(line);
    if t.len() == 0 || t[0] == '#' {
        EnvLine::Blank
    } else {
        match first_index(t, '=') {
            None => EnvLine::Bad,
            Some(eq) => if var_name_spec(t.take(eq)) {
                EnvLine::Pair(t.take(eq), unquote_spec(trim_spec(t.skip(eq + 1))))
            } else {
                EnvLine::Bad
            },
        }
    }
}

/// Whether `name` is among the names of `ps`.
pub open spec fn has_name(ps: Seq<(Seq<char>, Seq<char>)>, name: Seq<char>) -> bool {
    exists|i: int| 0 <= i < ps.len() && #[trigger] ps[i].0 == name
}

/// The pairs of the lines, in order; the first bad line is `E_PARSE`, and a
/// name defined twice is `E_ENV_CONFLICT`.
pub open spec fn env_pairs_spec(lines: Seq<Seq<char>>) -> Result<Seq<(Seq<char>, Seq<char>)>, ErrorCode>
    decreases lines.len(),
{
    if lines.len() == 0 {
        Ok(Seq::empty())
    } else {
        match env_pairs_spec(lines.drop_last()) {
            Err(c) => Err(c),
            Ok(ps) => match env_line_spec(lines.last()) {
                EnvLine::Blank => Ok(ps),
                EnvLine::Bad => Err(ErrorCode::Parse),
                EnvLine::Pair(n, v) => if has_name(ps, n) {
                    Err(ErrorCode::EnvConflict)
                } else {
                    Ok(ps.push((n, v)))
                },
            },
        }
    }
}

/// A line without a leading byte-order mark.
pub open spec fn strip_bom(l: Seq<char>) -> Seq<char> {
    if l.len() > 0 && l[0] == '\u{feff}' {
        l.drop_first()
    } else {
        l
    }
}

/// The lines of a file: split at `\n` (a `\r` before it is white space the
/// line grammar trims), the first without a byte-order mark.
pub open spec fn env_lines(text: Seq<char>) -> Seq<Seq<char>> {
    let ls = split_on(text, '\n');
    ls.update(0, strip_bom(ls[0]))
}

/// What parsing one `*.env` file yields.
pub open spec fn parse_env_spec(text: Seq<char>) -> Result<Seq<(Seq<char>, Seq<char>)>, ErrorCode> {
    env_pairs_spec(env_lines(text))
}

/// The views of a list of name/value pairs.
pub open spec fn pair_views(ps: Seq<(String, String)>) -> Seq<(Seq<char>, Seq<char>)> {
    ps.map_values(|p: (String, String)| (p.0@, p.1@))
}

fn parse_err(path: &str, lineno: usize, detail: &str) -> (e: Error)
    ensures
        e.spec_code() == ErrorCode::Parse,
{
    let n = count_text(lineno);
    Error::new(ErrorCode::Parse, concat4(path, ":", n.as_str(), concat2_str(": ", detail).as_str()))
}

fn concat2_str(a: &str, b: &str) -> (r: String)
    ensures
        r@ == a@ + b@,
{
    crate::text::concat2(a, b)
}

/// Parses one `*.env` file into name/value pairs in file order. A
/// malformed line is `E_PARSE`; a name defined twice within the file is
/// `E_ENV_CONFLICT`.
pub fn parse_env_file(text: &str, path: &str) -> (r: Result<Vec<(String, String)>, Error>)
    ensures
        r is Ok <==> parse_env_spec(text@) is Ok,
        r matches Ok(ps) ==> pair_views(ps@) == parse_env_spec(text@)->Ok_0,
        r matches Err(e) ==> parse_env_spec(text@) == Err::<Seq<(Seq<char>, Seq<char>)>, ErrorCode>(e.spec_code()),
{
    let chars = chars_of(text);
    let raw = split_chars(&chars, '\n');
    let ghost lines = env_lines(text@);
    let mut out: Vec<(String, String)> = Vec::new();
    let mut k: usize = 0;
    proof {
        crate::text::lemma_split_on_len(text@, '\n', Seq::empty());
    }
    assert(lines.take(0) == Seq::<Seq<char>>::empty());
    assert(pair_views(out@) =~= Seq::<(Seq<char>, Seq<char>)>::empty());
    while k < raw.len()
        invariant
            k <= raw.len(),
            raw@.len() == lines.len(),
            lines == env_lines(text@),
            chars@ == text@,
            forall|j: int| 0 < j < raw@.len() ==> #[trigger] raw@[j]@ == lines[j],
            raw@.len() > 0 ==> strip_bom(raw@[0]@) == lines[0],
            env_pairs_spec(lines.take(k as int)) == Ok::<Seq<(Seq<char>, Seq<char>)>, ErrorCode>(pair_views(out@)),
        decreases raw.len() - k,
    {
        let line: Vec<char> = if k == 0 && raw[0].len() > 0 && raw[0][0] == '\u{feff}' {
            slice_vec(&raw[0], 1, raw[0].len())
        } else {
            slice_vec(&raw[k], 0, raw[k].len())
        };
        assert(line@ == lines[k as int]);
        assert(lines.take(k + 1).drop_last() == lines.take(k as int));
        assert(lines.take(k + 1).last() == lines[k as int]);
        let t = trim_chars(&line);
        if t.len() == 0 || t[0] == '#' {
            k = k + 1;
            continue;
        }
        let eq = match find_char(&t, '=') {
            Some(eq) => eq,
            None => {
                proof {
                    lemma_env_pairs_err(lines, k + 1);
                }
                return Err(parse_err(path, k + 1, "not a blank line, comment, or NAME=value"));
            },
        };
        proof {
            lemma_first_index(t@, '=');
        }
        let name = slice_vec(&t, 0, eq);
        assert(name@ == t@.take(eq as int));
        if !is_var_name_chars(&name) {
            proof {
                lemma_env_pairs_err(lines, k + 1);
            }
            return Err(parse_err(path, k + 1, "invalid variable name (want [A-Za-z_][A-Za-z0-9_]*)"));
        }
        let after = slice_vec(&t, eq + 1, t.len());
        assert(after@ == t@.skip(eq + 1));
        let value = unquote(&trim_chars(&after));
        let name_s = string_of(name.as_slice());
        if pairs_have_name(&out, &name_s) {
            proof {
                lemma_env_pairs_err(lines, k + 1);
            }
            return Err(Error::new(
                ErrorCode::EnvConflict,
                concat3("variable \"", name_s.as_str(), concat3_str("\" is defined twice in ", path, "").as_str()),
            ));
        }
        assert(!has_name(pair_views(out@), name@));
        let ghost before = out@;
        out.push((name_s, string_of(value.as_slice())));
        assert(pair_views(out@) =~= pair_views(before).push((name@, value@)));
        k = k + 1;
    }
    assert(lines.take(k as int) == lines);
    Ok(out)
}

/// A failure among the first `k` lines is the failure of the whole file.
proof fn lemma_env_pairs_err(lines: Seq<Seq<char>>, k: int)
    requires
        0 <= k <= lines.len(),
        env_pairs_spec(lines.take(k)) is Err,
    ensures
        env_pairs_spec(lines) == env_pairs_spec(lines.take(k)),
    decreases lines.len() - k,
{
    if k < lines.len() {
        assert(lines.drop_last().take(k) == lines.take(k));
        lemma_env_pairs_err(lines.drop_last(), k);
    } else {
        assert(lines.take(k) == lines);
    }
}

/// Whether one of the pairs is named `name`.
fn pairs_have_name(out: &Vec<(String, String)>, name: &String) -> (r: bool)
    ensures
        r == has_name(pair_views(out@), name@),
{
    let mut j: usize = 0;
    while j < out.len()
        invariant
            j <= out.len(),
            forall|m: int| 0 <= m < j ==> #[trigger] out@[m].0@ != name@,
        decreases out.len() - j,
    {
        if crate::text::same_text(out[j].0.as_str(), name.as_str()) {
            assert(pair_views(out@)[j as int].0 == name@);
            return true;
        }
        j = j + 1;
    }
    assert forall|i: int| 0 <= i < out@.len() implies #[trigger] pair_views(out@)[i].0 != name@ by {
        assert(pair_views(out@)[i].0 == out@[i].0@);
    }
    false
}

fn concat3_str(a: &str, b: &str, c: &str) -> (r: String)
    ensures
        r@ == a@ + b@ + c@,
{
    concat3(a, b, c)
}

} // verus!

verus! {

/// The value `m` holds for `k`: the first pair named `k`.
pub open spec fn lookup_spec(m: Seq<(String, String)>, k: Seq<char>) -> Option<Seq<char>>
    decreases m.len(),
{
    if m.len() == 0 {
        None
    } else if m[0].0@ == k {
        Some(m[0].1@)
    } else {
        lookup_spec(m.drop_first(), k)
    }
}

/// The value `m` holds for `k`.
pub fn lookup(m: &Vec<(String, String)>, k: &str) -> (r: Option<String>)
    ensures
        r matches Some(v) ==> lookup_spec(m@, k@) == Some(v@),
        r is None ==> lookup_spec(m@, k@) is None,
{
    let mut i: usize = 0;
    assert(m@.skip(0) == m@);
    while i < m.len()
        invariant
            i <= m.len(),
            lookup_spec(m@, k@) == lookup_spec(m@.skip(i as int), k@),
        decreases m.len() - i,
    {
        assert(m@.skip(i as int).drop_first() == m@.skip(i + 1));
        assert(m@.skip(i as int)[0] == m@[i as int]);
        if crate::text::same_text(m[i].0.as_str(), k) {
            return Some(m[i].1.clone());
        }
        i = i + 1;
    }
    None
}

/// The variable namespace: the process environment shadows the
/// `*.env` definitions. Every name looked up is remembered in `used`, which
/// is what a plan's `variables` are built from.
#[derive(Debug)]
pub struct Vars {
    /// The process environment, name to value.
    pub process: Vec<(String, String)>,
    /// The `*.env` definitions, name to value.
    pub files: Vec<(String, String)>,
    /// The `*.env` file defining each name, name to file path.
    pub origins: Vec<(String, String)>,
    /// Every name looked up, in order.
    pub used: Vec<String>,
}

/// The value of `name` in the namespace: the process environment first, then
/// the `*.env` files.
pub open spec fn var_value(process: Seq<(String, String)>, files: Seq<(String, String)>, name: Seq<char>) -> Option<Seq<char>> {
    match lookup_spec(process, name) {
        Some(v) => Some(v),
        None => lookup_spec(files, name),
    }
}

/// The views of a list of names.
pub open spec fn name_views(ns: Seq<String>) -> Seq<Seq<char>> {
    ns.map_values(|n: String| n@)
}

impl Vars {
    /// The value of `name`, for contracts.
    pub open spec fn value_of(&self, name: Seq<char>) -> Option<Seq<char>> {
        var_value(self.process@, self.files@, name)
    }

    /// A namespace over the process environment and the `*.env` definitions,
    /// having looked nothing up yet.
    pub fn new(process: Vec<(String, String)>, files: Vec<(String, String)>, origins: Vec<(String, String)>) -> (v: Vars)
        ensures
            v.process == process,
            v.files == files,
            v.origins == origins,
            v.used@ == Seq::<String>::empty(),
    {
        Vars { process, files, origins, used: Vec::new() }
    }

    /// The value of `name`, remembering that it was looked up.
    pub fn get(&mut self, name: &str) -> (r: Option<String>)
        ensures
            r matches Some(v) ==> old(self).value_of(name@) == Some(v@),
            r is None ==> old(self).value_of(name@) is None,
            final(self).process == old(self).process,
            final(self).files == old(self).files,
            final(self).origins == old(self).origins,
            name_views(final(self).used@) == name_views(old(self).used@).push(name@),
    {
        let ghost before = self.used@;
        self.used.push(crate::text::owned(name));
        assert(name_views(self.used@) =~= name_views(before).push(name@));
        match lookup(&self.process, name) {
            Some(v) => Some(v),
            None => lookup(&self.files, name),
        }
    }
}

/// Which layer of the namespace supplies a name.
#[derive(Debug)]
pub enum VarOrigin {
    /// The process environment.
    Process,
    /// A `*.env` file, by path.
    File(String),
    /// Neither.
    Unset,
}

impl Vars {
    /// Which layer of the namespace supplies `name`: the process environment, a
    /// `*.env` file (with its path), or neither.
    pub fn origin(&self, name: &str) -> (r: VarOrigin)
        ensures
            lookup_spec(self.process@, name@) is Some ==> r is Process,
            lookup_spec(self.process@, name@) is None ==> match lookup_spec(self.origins@, name@) {
                Some(p) => r matches VarOrigin::File(q) && q@ == p,
                None => r is Unset,
            },
    {
        match lookup(&self.process, name) {
            Some(_) => VarOrigin::Process,
            None => match lookup(&self.origins, name) {
                Some(p) => VarOrigin::File(p),
                None => VarOrigin::Unset,
            },
        }
    }

    /// Every name looked up so far, sorted by code point, each once.
    pub fn used(&self) -> (r: Vec<String>)
        ensures
            name_views(r@) == crate::snapshot::unique_sorted(name_views(self.used@)),
    {
        crate::snapshot::sorted_unique(&self.used)
    }
}


/// `v` is the value the first entry named `name` in `ps` holds.
pub open spec fn first_value(ps: Seq<(Seq<char>, Seq<char>)>, name: Seq<char>, v: Seq<char>) -> bool {
    exists|i: int| 0 <= i < ps.len() && ps[i] == (name, v) && forall|j: int| 0 <= j < i ==> (#[trigger] ps[j]).0 != name
}

/// No entry of `ps` is named `name`.
pub open spec fn lacks_name(ps: Seq<(Seq<char>, Seq<char>)>, name: Seq<char>) -> bool {
    forall|i: int| 0 <= i < ps.len() ==> (#[trigger] ps[i]).0 != name
}

proof fn lemma_lookup_first(m: Seq<(String, String)>, k: Seq<char>, v: Seq<char>)
    requires
        first_value(pair_views(m), k, v),
    ensures
        lookup_spec(m, k) == Some(v),
    decreases m.len(),
{
    let pv = pair_views(m);
    let i = choose|i: int| 0 <= i < pv.len() && pv[i] == (k, v) && forall|j: int| 0 <= j < i ==> (#[trigger] pv[j]).0 != k;
    if i > 0 {
        assert(pv[0].0 != k);
        let pv1 = pair_views(m.drop_first());
        assert(pv1[i - 1] == pv[i]);
        assert forall|j: int| 0 <= j < i - 1 implies (#[trigger] pv1[j]).0 != k by {
            assert(pv1[j] == pv[j + 1]);
        }
        lemma_lookup_first(m.drop_first(), k, v);
    }
}

proof fn lemma_lookup_lacks(m: Seq<(String, String)>, k: Seq<char>)
    requires
        lacks_name(pair_views(m), k),
    ensures
        lookup_spec(m, k) is None,
    decreases m.len(),
{
    if m.len() > 0 {
        let pv = pair_views(m);
        assert(pv[0].0 != k);
        assert forall|j: int| 0 <= j < m.drop_first().len() implies (#[trigger] pair_views(m.drop_first())[j]).0 != k by {
            assert(pair_views(m.drop_first())[j] == pv[j + 1]);
        }
        lemma_lookup_lacks(m.drop_first(), k);
    }
}

/// Law: the process environment wins. Where the process environment defines
/// `name`, its value (the first one given) is the variable's value whatever
/// the `*.env` files define; only where it does not are the files' values
/// used.
pub proof fn law_process_env_wins(process: Seq<(String, String)>, files: Seq<(String, String)>, name: Seq<char>, v: Seq<char>)
    ensures
        first_value(pair_views(process), name, v) ==> var_value(process, files, name) == Some(v),
        lacks_name(pair_views(process), name) && first_value(pair_views(files), name, v) ==> var_value(process, files, name) == Some(v),
        lacks_name(pair_views(process), name) && lacks_name(pair_views(files), name) ==> var_value(process, files, name) is None,
{
    if first_value(pair_views(process), name, v) {
        lemma_lookup_first(process, name, v);
    }
    if lacks_name(pair_views(process), name) {
        lemma_lookup_lacks(process, name);
        if first_value(pair_views(files), name, v) {
            lemma_lookup_first(files, name, v);
        }
        if lacks_name(pair_views(files), name) {
            lemma_lookup_lacks(files, name);
        }
    }
}


proof fn lemma_trim_untouched(s: Seq<char>)
    requires
        s.len() == 0 || (!crate::text::is_ws(s[0]) && !crate::text::is_ws(s.last())),
    ensures
        trim_spec(s) == s,
{
    assert(crate::text::trim_start_spec(s) == s);
    assert(crate::text::trim_end_spec(s) == s);
}

/// Law: a `*.env` line `NAME=rest` defines `NAME` as everything after the
/// first `=`, `=` signs included: written back as `NAME`, `=`, value, the
/// line is what it was. A value wrapped in one kind of quotes loses just
/// those quotes.
pub proof fn law_env_value_is_rest_of_line(name: Seq<char>, rest: Seq<char>, q: char, inner: Seq<char>)
    requires
        var_name_spec(name),
        rest.len() == 0 || (!crate::text::is_ws(rest[0]) && !crate::text::is_ws(rest.last())),
        q == '"' || q == '\'',
    ensures
        !(rest.len() > 0 && (rest[0] == '"' || rest[0] == '\'')) ==> env_line_spec(name + seq!['='] + rest) == EnvLine::Pair(name, rest),
        env_line_spec(name + seq!['='] + (seq![q] + inner + seq![q])) == EnvLine::Pair(name, inner),
{
    lemma_env_value_case(name, rest);
    lemma_env_value_case(name, seq![q] + inner + seq![q]);
    let w = seq![q] + inner + seq![q];
    assert(w.subrange(1, w.len() - 1) =~= inner);
}

proof fn lemma_env_value_case(name: Seq<char>, rest: Seq<char>)
    requires
        var_name_spec(name),
        rest.len() == 0 || (!crate::text::is_ws(rest[0]) && !crate::text::is_ws(rest.last())),
    ensures
        env_line_spec(name + seq!['='] + rest) == EnvLine::Pair(name, unquote_spec(rest)),
{
    let line = name + seq!['='] + rest;
    let n = name.len() as int;
    assert(line[0] == name[0]);
    if rest.len() == 0 {
        assert(line.last() == '=');
    } else {
        assert(line.last() == rest.last());
    }
    lemma_trim_untouched(line);
    lemma_trim_untouched(rest);
    assert forall|j: int| 0 <= j < n implies line[j] != '=' by {
        assert(line[j] == name[j]);
        if j > 0 {
            assert(is_name_char(name[j]));
        }
    }
    assert(line[n] == '=');
    lemma_first_index(line, '=');
    assert(first_index(line, '=') == Some(n));
    assert(line.take(n) =~= name);
    assert(line.skip(n + 1) =~= rest);
}

} // verus!
