//! `$` interpolation over the assembled tree.

use vstd::prelude::*;

use crate::envfile::{is_name_char, is_name_start, name_char, name_start, name_views, var_name_spec, Vars};
use crate::error::{Error, ErrorCode};
use crate::json::{json_number, json_number_value, jv_entries, jv_of, jv_seq, lemma_jv_entries, lemma_jv_seq, Json, JV};
use crate::text::{
    chars_of, concat3, find_char, find_from, first_index, lemma_first_index, owned, slice_vec, string_of, trim_chars,
    trim_spec,
};

verus! {

broadcast use {lemma_jv_seq, lemma_jv_entries};

/// One lexical piece of an authored string.
pub enum Piece {
    /// A character copied as is.
    Lit(char),
    /// `$$`, a literal `$`.
    Dollar,
    /// A reference: the name and, for `${NAME:-default}`, the default text.
    Ref(Seq<char>, Option<Seq<char>>),
}

/// The length of the run of name characters at the start of `s`.
pub open spec fn name_run(s: Seq<char>) -> nat
    decreases s.len(),
{
    if s.len() > 0 && is_name_char(s[0]) {
        1 + name_run(s.drop_first())
    } else {
        0
    }
}

/// The inside of `${...}`: `NAME` or `NAME:-default`; any other `:` form is
/// reserved, and an invalid name is malformed.
pub open spec fn brace_ref(inner: Seq<char>) -> Result<Piece, ErrorCode> {
    match first_index(inner, ':') {
        None => if var_name_spec(inner) {
            Ok(Piece::Ref(inner, None))
        } else {
            Err(ErrorCode::Substitution)
        },
        Some(a) => if a + 1 < inner.len() && inner[a + 1] == '-' {
            if var_name_spec(inner.take(a)) {
                Ok(Piece::Ref(inner.take(a), Some(inner.skip(a + 2))))
            } else {
                Err(ErrorCode::Substitution)
            }
        } else {
            Err(ErrorCode::Substitution)
        },
    }
}

/// The first piece of a non-empty string and the number of characters it
/// spans. A `$` must be followed by `$`, `{NAME...}`, or a name starting with
/// a letter or `_`; anything else is `E_SUBSTITUTION`.
pub open spec fn next_piece(s: Seq<char>) -> Result<(Piece, int), ErrorCode> {
    if s[0] != '$' {
        Ok((Piece::Lit(s[0]), 1))
    } else if s.len() == 1 {
        Err(ErrorCode::Substitution)
    } else if s[1] == '$' {
        Ok((Piece::Dollar, 2))
    } else if s[1] == '{' {
        match first_index(s.skip(2), '}') {
            None => Err(ErrorCode::Substitution),
            Some(c) => match brace_ref(s.subrange(2, 2 + c)) {
                Ok(p) => Ok((p, c + 3)),
                Err(e) => Err(e),
            },
        }
    } else if is_name_start(s[1]) {
        Ok((Piece::Ref(s.subrange(1, 1 + name_run(s.skip(1)) as int), None), 1 + name_run(s.skip(1)) as int))
    } else {
        Err(ErrorCode::Substitution)
    }
}

pub proof fn lemma_name_run(s: Seq<char>)
    ensures
        name_run(s) <= s.len(),
        forall|i: int| 0 <= i < name_run(s) ==> is_name_char(#[trigger] s[i]),
        name_run(s) < s.len() ==> !is_name_char(s[name_run(s) as int]),
    decreases s.len(),
{
    if s.len() > 0 && is_name_char(s[0]) {
        lemma_name_run(s.drop_first());
        assert forall|i: int| 0 <= i < name_run(s) implies is_name_char(#[trigger] s[i]) by {
            if i > 0 {
                assert(s[i] == s.drop_first()[i - 1]);
            }
        }
    }
}

/// A piece spans at least one character and no more than the string.
pub proof fn lemma_next_piece_len(s: Seq<char>)
    requires
        s.len() > 0,
    ensures
        next_piece(s) matches Ok((p, n)) ==> 1 <= n <= s.len(),
{
    if s.len() > 1 {
        lemma_first_index(s.skip(2), '}');
        lemma_name_run(s.skip(1));
    }
}

/// The text a piece expands to, given the namespace's value for each name.
pub open spec fn piece_value(p: Piece, vars: spec_fn(Seq<char>) -> Option<Seq<char>>) -> Result<Seq<char>, ErrorCode> {
    match p {
        Piece::Lit(c) => Ok(seq![c]),
        Piece::Dollar => Ok(seq!['$']),
        Piece::Ref(name, default) => match vars(name) {
            Some(v) => Ok(v),
            None => match default {
                Some(d) => Ok(d),
                None => Err(ErrorCode::MissingVar),
            },
        },
    }
}

/// The names a piece looks up.
pub open spec fn piece_names(p: Piece) -> Seq<Seq<char>> {
    match p {
        Piece::Ref(name, _) => seq![name],
        _ => Seq::empty(),
    }
}

/// Expands `s` piece by piece: the expanded text, the number of
/// references, and the names looked up in order. The first failing piece
/// decides the error. Substituted text is inert: it is never re-scanned.
pub open spec fn interp_spec(s: Seq<char>, vars: spec_fn(Seq<char>) -> Option<Seq<char>>) -> Result<(Seq<char>, nat, Seq<Seq<char>>), ErrorCode>
    decreases s.len(),
{
    if s.len() == 0 {
        Ok((Seq::empty(), 0, Seq::empty()))
    } else {
        proof {
            lemma_next_piece_len(s);
        }
        match next_piece(s) {
            Err(e) => Err(e),
            Ok((p, n)) => match piece_value(p, vars) {
                Err(e) => Err(e),
                Ok(text) => match interp_spec(s.skip(n), vars) {
                    Err(e) => Err(e),
                    Ok((rest, k, names)) => Ok((
                        text + rest,
                        k + if p is Ref { 1nat } else { 0nat },
                        piece_names(p) + names,
                    )),
                },
            },
        }
    }
}

/// Whether `s` is exactly one reference and nothing else.
pub open spec fn whole_ref(s: Seq<char>) -> bool {
    &&& s.len() > 0
    &&& next_piece(s) matches Ok((p, n))
    &&& p is Ref
    &&& n == s.len()
}

/// Whole-value typing: `true`, `false`, `null`, a plain integer (that
/// integer), or another JSON number that parses to a finite double becomes
/// that scalar; a text outside the JSON number grammar stays a string.
pub open spec fn typed_spec(text: Seq<char>) -> Option<JV> {
    if text == "true"@ {
        Some(JV::Bool(true))
    } else if text == "false"@ {
        Some(JV::Bool(false))
    } else if text == "null"@ {
        Some(JV::Null)
    } else if text.len() == 0 || trim_spec(text) != text {
        None
    } else if crate::json::plain_int_text(text) is Some {
        Some(JV::Num(crate::json::NumV::Int(crate::json::plain_int_text(text).unwrap())))
    } else if !crate::json::json_number_grammar(text) {
        None
    } else {
        match json_number_value(text) {
            Some(n) => Some(JV::Num(n)),
            None => None,
        }
    }
}

/// What interpolating one string value yields: the expanded text,
/// typed when the string is exactly one reference whose result is a typed
/// scalar.
pub open spec fn interp_string_spec(s: Seq<char>, vars: spec_fn(Seq<char>) -> Option<Seq<char>>) -> Result<JV, ErrorCode> {
    match interp_spec(s, vars) {
        Err(e) => Err(e),
        Ok((out, k, _)) => if k == 1 && whole_ref(s) {
            match typed_spec(out) {
                Some(v) => Ok(v),
                None => Ok(JV::Str(out)),
            }
        } else {
            Ok(JV::Str(out))
        },
    }
}


proof fn lemma_first_index_at(s: Seq<char>, c: char, i: int)
    requires
        0 <= i < s.len(),
        s[i] == c,
        forall|j: int| 0 <= j < i ==> s[j] != c,
    ensures
        first_index(s, c) == Some(i),
{
    lemma_first_index(s, c);
}

proof fn lemma_name_chars(name: Seq<char>)
    requires
        var_name_spec(name),
    ensures
        forall|i: int| 0 <= i < name.len() ==> is_name_char(#[trigger] name[i]),
{
}

/// `${name:-default}`.
pub open spec fn defaulted_ref(name: Seq<char>, default: Seq<char>) -> Seq<char> {
    seq!['$', '{'] + name + seq![':', '-'] + default + seq!['}']
}

/// Law: `${NAME:-default}` expands to the variable's value when it is set,
/// whatever the default, and to the default text when it is not; `$$`
/// expands to one `$` and looks nothing up.
pub proof fn law_default_only_when_unset(name: Seq<char>, default: Seq<char>, vars: spec_fn(Seq<char>) -> Option<Seq<char>>)
    requires
        var_name_spec(name),
        forall|i: int| 0 <= i < default.len() ==> default[i] != '}',
    ensures
        interp_spec(defaulted_ref(name, default), vars) == Ok::<(Seq<char>, nat, Seq<Seq<char>>), ErrorCode>((
            match vars(name) {
                Some(v) => v,
                None => default,
            },
            1nat,
            seq![name],
        )),
        interp_spec(seq!['$', '$'], vars) == Ok::<(Seq<char>, nat, Seq<Seq<char>>), ErrorCode>((seq!['$'], 0nat, Seq::empty())),
{
    lemma_name_chars(name);
    let s = defaulted_ref(name, default);
    let n = name.len() as int;
    let inner = name + seq![':', '-'] + default;
    let c = inner.len() as int;
    assert(s.skip(2) =~= inner + seq!['}']);
    assert forall|j: int| 0 <= j < c implies (inner + seq!['}'])[j] != '}' by {
        assert((inner + seq!['}'])[j] == inner[j]);
        if j < n {
            assert(inner[j] == name[j]);
        } else if j >= n + 2 {
            assert(inner[j] == default[j - n - 2]);
        }
    }
    lemma_first_index_at(s.skip(2), '}', c);
    assert(s.subrange(2, 2 + c) =~= inner);
    assert forall|j: int| 0 <= j < n implies inner[j] != ':' by {
        assert(inner[j] == name[j]);
    }
    lemma_first_index_at(inner, ':', n);
    assert(inner.take(n) =~= name);
    assert(inner.skip(n + 2) =~= default);
    assert(brace_ref(inner) == Ok::<Piece, ErrorCode>(Piece::Ref(name, Some(default))));
    assert(next_piece(s) == Ok::<(Piece, int), ErrorCode>((Piece::Ref(name, Some(default)), c + 3)));
    assert(s.len() == c + 3);
    assert(s.skip(c + 3) =~= Seq::<char>::empty());
    assert(interp_spec(Seq::<char>::empty(), vars) == Ok::<(Seq<char>, nat, Seq<Seq<char>>), ErrorCode>((Seq::<char>::empty(), 0nat, Seq::<Seq<char>>::empty())));
    let t = match vars(name) {
        Some(v) => v,
        None => default,
    };
    assert(t + Seq::<char>::empty() =~= t);
    assert(seq![name] + Seq::<Seq<char>>::empty() =~= seq![name]);
    let dd = seq!['$', '$'];
    assert(next_piece(dd) == Ok::<(Piece, int), ErrorCode>((Piece::Dollar, 2)));
    assert(dd.skip(2) =~= Seq::<char>::empty());
    assert(seq!['$'] + Seq::<char>::empty() =~= seq!['$']);
    assert(Seq::<Seq<char>>::empty() + Seq::<Seq<char>>::empty() =~= Seq::<Seq<char>>::empty());
}

/// The whole-reference strings that name `name`: `${name}` and `$name`.
pub open spec fn braced_ref(name: Seq<char>) -> Seq<char> {
    seq!['$', '{'] + name + seq!['}']
}

/// `$name`.
pub open spec fn bare_ref(name: Seq<char>) -> Seq<char> {
    seq!['$'] + name
}

/// Law: a string that is exactly one reference, `${NAME}` or `$NAME`, to a
/// variable holding the JSON text of `true`, `false` or `null` becomes that
/// boolean or null, not a string: the reference keeps its scalar type.
pub proof fn law_whole_reference_keeps_scalar(name: Seq<char>, vars: spec_fn(Seq<char>) -> Option<Seq<char>>, x: JV)
    requires
        var_name_spec(name),
        x is Bool || x is Null,
        vars(name) == Some(crate::jsonfmt::value_text(x, 0)),
    ensures
        interp_string_spec(braced_ref(name), vars) == Ok::<JV, ErrorCode>(x),
        interp_string_spec(bare_ref(name), vars) == Ok::<JV, ErrorCode>(x),
{
    reveal_strlit("true");
    reveal_strlit("false");
    reveal_strlit("null");
    lemma_name_chars(name);
    let t = crate::jsonfmt::value_text(x, 0);
    assert(interp_spec(Seq::<char>::empty(), vars) == Ok::<(Seq<char>, nat, Seq<Seq<char>>), ErrorCode>((Seq::<char>::empty(), 0nat, Seq::<Seq<char>>::empty())));
    assert(piece_value(Piece::Ref(name, None), vars) == Ok::<Seq<char>, ErrorCode>(t));
    // `${name}`
    let s = braced_ref(name);
    let n = name.len() as int;
    assert(s.skip(2) =~= name + seq!['}']);
    lemma_first_index_at(s.skip(2), '}', n);
    assert(s.subrange(2, 2 + n) =~= name);
    lemma_first_index(name, ':');
    assert(brace_ref(name) == Ok::<Piece, ErrorCode>(Piece::Ref(name, None)));
    assert(next_piece(s) == Ok::<(Piece, int), ErrorCode>((Piece::Ref(name, None), n + 3)));
    assert(s.skip(n + 3) =~= Seq::<char>::empty());
    assert(s.len() == n + 3);
    assert(interp_spec(s, vars) == Ok::<(Seq<char>, nat, Seq<Seq<char>>), ErrorCode>((t + Seq::<char>::empty(), 1nat, seq![name] + Seq::<Seq<char>>::empty())));
    assert(t + Seq::<char>::empty() =~= t);
    assert(whole_ref(s));
    // `$name`
    let b = bare_ref(name);
    assert(b.skip(1) =~= name);
    lemma_name_run(name);
    assert(name_run(b.skip(1)) == n);
    assert(b.subrange(1, 1 + n) =~= name);
    assert(next_piece(b) == Ok::<(Piece, int), ErrorCode>((Piece::Ref(name, None), n + 1)));
    assert(b.skip(n + 1) =~= Seq::<char>::empty());
    assert(interp_spec(b, vars) == Ok::<(Seq<char>, nat, Seq<Seq<char>>), ErrorCode>((t + Seq::<char>::empty(), 1nat, seq![name] + Seq::<Seq<char>>::empty())));
    assert(whole_ref(b));
}

} // verus!

verus! {

/// The namespace's value for each name, as a function.
pub open spec fn value_fn(process: Seq<(String, String)>, files: Seq<(String, String)>) -> spec_fn(Seq<char>) -> Option<Seq<char>> {
    |n: Seq<char>| crate::envfile::var_value(process, files, n)
}

/// Text expanded so far followed by the expansion of the rest.
pub open spec fn combine(out: Seq<char>, k: nat, names: Seq<Seq<char>>, rest: Result<(Seq<char>, nat, Seq<Seq<char>>), ErrorCode>) -> Result<(Seq<char>, nat, Seq<Seq<char>>), ErrorCode> {
    match rest {
        Err(e) => Err(e),
        Ok((t, k2, n2)) => Ok((out + t, k + k2, names + n2)),
    }
}

proof fn lemma_combine_step(out: Seq<char>, k: nat, names: Seq<Seq<char>>, text: Seq<char>, dk: nat, dn: Seq<Seq<char>>, rest: Result<(Seq<char>, nat, Seq<Seq<char>>), ErrorCode>)
    ensures
        combine(out, k, names, combine(text, dk, dn, rest)) == combine(out + text, k + dk, names + dn, rest),
{
    match rest {
        Ok((t, k2, n2)) => {
            assert(out + (text + t) == (out + text) + t);
            assert(names + (dn + n2) == (names + dn) + n2);
        },
        Err(_) => {},
    }
}

fn subst_err(s: &str, detail: &str) -> (e: Error)
    ensures
        e.spec_code() == ErrorCode::Substitution,
{
    Error::new(ErrorCode::Substitution, concat3("\"", s, concat3("\": ", detail, "").as_str()))
}

fn missing_err(name: &str) -> (e: Error)
    ensures
        e.spec_code() == ErrorCode::MissingVar,
{
    Error::new(ErrorCode::MissingVar, concat3("variable \"", name, "\" is not set and has no default"))
}

/// Whole-value typing of an expanded single reference.
fn typed_scalar(out: &Vec<char>) -> (r: Option<Json>)
    ensures
        r matches Some(j) ==> typed_spec(out@) == Some(j@),
        r is None ==> typed_spec(out@) is None,
{
    let text = string_of(out.as_slice());
    if crate::text::same_text(text.as_str(), "true") {
        return Some(Json::Bool(true));
    }
    if crate::text::same_text(text.as_str(), "false") {
        return Some(Json::Bool(false));
    }
    if crate::text::same_text(text.as_str(), "null") {
        return Some(Json::Null);
    }
    if out.len() == 0 || !crate::text::chars_eq(&trim_chars(out), out) {
        return None;
    }
    match json_number(text.as_str()) {
        Some(n) => Some(Json::Number(n)),
        None => None,
    }
}


/// The views of an optional character vector.
pub open spec fn opt_view(d: Option<Vec<char>>) -> Option<Seq<char>> {
    match d {
        Some(v) => Some(v@),
        None => None,
    }
}

/// Scans the reference that starts at `c[i]` (a `$` not followed by `$`).
fn scan_ref(c: &Vec<char>, i: usize, s: &str) -> (r: Result<(Vec<char>, Option<Vec<char>>, usize), Error>)
    requires
        i + 1 < c.len(),
        c@[i as int] == '$',
        c@[i + 1] != '$',
    ensures
        r matches Ok((n, d, end)) ==> next_piece(c@.skip(i as int)) == Ok::<(Piece, int), ErrorCode>((Piece::Ref(n@, opt_view(d)), end - i)),
        r matches Err(e) ==> next_piece(c@.skip(i as int)) == Err::<(Piece, int), ErrorCode>(e.spec_code()),
{
    let ghost t = c@.skip(i as int);
    assert(t[0] == c@[i as int]);
    assert(t[1] == c@[i + 1]);
if c[i + 1] == '{' {
        assert(t.skip(2) == c@.skip(i + 2));
        let close = match find_from(&c, i + 2, '}') {
            Some(close) => close,
            None => {
                return Err(subst_err(s, "unterminated `${`"));
            },
        };
        let inner = slice_vec(&c, i + 2, close);
        assert(inner@ == t.subrange(2, 2 + (close - (i + 2))));
        proof {
            lemma_first_index(inner@, ':');
        }
        match find_char(&inner, ':') {
            None => {
                if !crate::envfile::is_var_name_chars(&inner) {
                    return Err(subst_err(s, "invalid variable name"));
                }
                Ok((inner, None, close + 1))
            },
            Some(at) => {
                if !(at + 1 < inner.len() && inner[at + 1] == '-') {
                    return Err(subst_err(s, "`${NAME:...}` forms other than `:-` are reserved"));
                }
                let name = slice_vec(&inner, 0, at);
                assert(name@ == inner@.take(at as int));
                if !crate::envfile::is_var_name_chars(&name) {
                    return Err(subst_err(s, "invalid variable name"));
                }
                let d = slice_vec(&inner, at + 2, inner.len());
                assert(d@ == inner@.skip(at + 2));
                Ok((name, Some(d), close + 1))
            },
        }
    } else if name_start(c[i + 1]) {
        let mut end = i + 1;
        while end < c.len() && name_char(c[end])
            invariant
                i + 1 <= end <= c.len(),
                forall|j: int| i + 1 <= j < end ==> is_name_char(#[trigger] c@[j]),
            decreases c.len() - end,
        {
            end = end + 1;
        }
        proof {
            let u = t.skip(1);
            assert(u == c@.skip(i + 1));
            lemma_name_run(u);
            let r = name_run(u);
            if r < end - (i + 1) {
                assert(u[r as int] == c@[i + 1 + r]);
            } else if r > end - (i + 1) {
                assert(u[end - (i + 1)] == c@[end as int]);
            }
        }
        let name = slice_vec(&c, i + 1, end);
        assert(name@ == t.subrange(1, 1 + name_run(t.skip(1)) as int));
        Ok((name, None, end))
    } else {
        return Err(subst_err(s, "`$` must be followed by `$`, `{NAME...}`, or a name starting with a letter or `_`"));
    }
}

/// Expands one string. Substituted text is inert: it is copied
/// into the output and never re-scanned for `$` or `@file:`.
pub fn interpolate_string(s: &str, vars: &mut Vars) -> (r: Result<Json, Error>)
    ensures
        r is Ok <==> interp_string_spec(s@, value_fn(old(vars).process@, old(vars).files@)) is Ok,
        r matches Ok(j) ==> interp_string_spec(s@, value_fn(old(vars).process@, old(vars).files@)) == Ok::<JV, ErrorCode>(j@),
        r matches Err(e) ==> interp_string_spec(s@, value_fn(old(vars).process@, old(vars).files@)) == Err::<JV, ErrorCode>(e.spec_code()),
        final(vars).process == old(vars).process,
        final(vars).files == old(vars).files,
        final(vars).origins == old(vars).origins,
        r is Ok ==> name_views(final(vars).used@) == name_views(old(vars).used@) + interp_spec(s@, value_fn(old(vars).process@, old(vars).files@))->Ok_0.2,
{
    let ghost vf = value_fn(vars.process@, vars.files@);
    let ghost used0 = name_views(vars.used@);
    let c = chars_of(s);
    let mut out: Vec<char> = Vec::new();
    let mut refs: usize = 0;
    let mut whole = false;
    let ghost mut names: Seq<Seq<char>> = Seq::empty();
    let mut i: usize = 0;
    assert(c@.skip(0) == c@);
    proof {
        match interp_spec(c@, vf) {
            Ok((t, k, n)) => {
                assert(Seq::<char>::empty() + t == t);
                assert(Seq::<Seq<char>>::empty() + n == n);
            },
            Err(_) => {},
        }
        assert(used0 + Seq::<Seq<char>>::empty() == used0);
    }
    while i < c.len()
        invariant
            i <= c.len(),
            c@ == s@,
            refs <= i,
            vf == value_fn(vars.process@, vars.files@),
            vars.process == old(vars).process,
            vars.files == old(vars).files,
            vars.origins == old(vars).origins,
            used0 == name_views(old(vars).used@),
            name_views(vars.used@) == used0 + names,
            interp_spec(c@, vf) == combine(out@, refs as nat, names, interp_spec(c@.skip(i as int), vf)),
            i == 0 ==> !whole,
            i > 0 ==> whole == whole_ref(c@),
        decreases c.len() - i,
    {
        let ghost t = c@.skip(i as int);
        assert(t[0] == c@[i as int]);
        proof {
            lemma_next_piece_len(t);
            if i == 0 {
                assert(t == c@);
            }
        }
        if c[i] != '$' {
            let ghost text = seq![c[i as int]];
            assert(t.skip(1) == c@.skip(i + 1));
            proof {
                assert(next_piece(t) == Ok::<(Piece, int), ErrorCode>((Piece::Lit(c@[i as int]), 1)));
                assert(interp_spec(t, vf) == combine(text, 0, Seq::empty(), interp_spec(c@.skip(i + 1), vf)));
                lemma_combine_step(out@, refs as nat, names, text, 0, Seq::empty(), interp_spec(c@.skip(i + 1), vf));
                assert(names + Seq::<Seq<char>>::empty() == names);
            }
            let ghost old_out = out@;
            out.push(c[i]);
            assert(out@ == old_out + text);
            i = i + 1;
            continue;
        }
        if i + 1 == c.len() {
            return Err(subst_err(s, "trailing `$`"));
        }
        assert(t[1] == c@[i + 1]);
        if c[i + 1] == '$' {
            let ghost text = seq!['$'];
            assert(t.skip(2) == c@.skip(i + 2));
            proof {
                assert(next_piece(t) == Ok::<(Piece, int), ErrorCode>((Piece::Dollar, 2)));
                assert(interp_spec(t, vf) == combine(text, 0, Seq::empty(), interp_spec(c@.skip(i + 2), vf)));
                lemma_combine_step(out@, refs as nat, names, text, 0, Seq::empty(), interp_spec(c@.skip(i + 2), vf));
                assert(names + Seq::<Seq<char>>::empty() == names);
            }
            let ghost old_out = out@;
            out.push('$');
            assert(out@ == old_out + text);
            i = i + 2;
            continue;
        }
        let ghost old_used = vars.used@;
        let (name_v, default, end) = scan_ref(&c, i, s)?;
        assert(next_piece(t) == Ok::<(Piece, int), ErrorCode>((Piece::Ref(name_v@, opt_view(default)), end - i)));
        let name_s = string_of(name_v.as_slice());
        let expanded = match vars.get(name_s.as_str()) {
            Some(v) => chars_of(v.as_str()),
            None => match default {
                Some(d) => d,
                None => {
                    return Err(missing_err(name_s.as_str()));
                },
            },
        };
        proof {
            assert(t.skip(end - i) == c@.skip(end as int));
            lemma_combine_step(out@, refs as nat, names, expanded@, 1, seq![name_v@], interp_spec(c@.skip(end as int), vf));
            assert(name_views(vars.used@) == used0 + (names + seq![name_v@]));
            names = names + seq![name_v@];
        }
        if i == 0 && end == c.len() {
            whole = true;
        }
        let mut k: usize = 0;
        let ghost base = out@;
        while k < expanded.len()
            invariant
                k <= expanded.len(),
                out@ == base + expanded@.take(k as int),
            decreases expanded.len() - k,
        {
            out.push(expanded[k]);
            k = k + 1;
        }
        assert(expanded@.take(k as int) == expanded@);
        refs = refs + 1;
        i = end;
    }
    assert(c@.skip(i as int) == Seq::<char>::empty());
    assert(out@ + Seq::<char>::empty() == out@);
    assert(names + Seq::<Seq<char>>::empty() == names);
    if refs == 1 && whole {
        match typed_scalar(&out) {
            Some(j) => {
                return Ok(j);
            },
            None => {},
        }
    }
    Ok(Json::Str(string_of(out.as_slice())))
}

} // verus!

verus! {

/// Interpolates every string value of a tree, with the names
/// looked up in document order; object keys are never touched. The first
/// failing string decides the error.
pub open spec fn interp_tree(v: JV, vf: spec_fn(Seq<char>) -> Option<Seq<char>>) -> Result<(JV, Seq<Seq<char>>), ErrorCode>
    decreases v,
{
    match v {
        JV::Str(s) => match interp_string_spec(s, vf) {
            Ok(x) => Ok((x, interp_spec(s, vf)->Ok_0.2)),
            Err(e) => Err(e),
        },
        JV::Arr(items) => match interp_items(items, vf) {
            Ok((xs, ns)) => Ok((JV::Arr(xs), ns)),
            Err(e) => Err(e),
        },
        JV::Obj(es) => match interp_members(es, vf) {
            Ok((xs, ns)) => Ok((JV::Obj(xs), ns)),
            Err(e) => Err(e),
        },
        other => Ok((other, Seq::empty())),
    }
}

/// Interpolates the elements of an array in order.
pub open spec fn interp_items(items: Seq<JV>, vf: spec_fn(Seq<char>) -> Option<Seq<char>>) -> Result<(Seq<JV>, Seq<Seq<char>>), ErrorCode>
    decreases items,
{
    if items.len() == 0 {
        Ok((Seq::empty(), Seq::empty()))
    } else {
        match interp_tree(items[0], vf) {
            Err(e) => Err(e),
            Ok((x, n)) => match interp_items(items.drop_first(), vf) {
                Err(e) => Err(e),
                Ok((xs, ns)) => Ok((seq![x] + xs, n + ns)),
            },
        }
    }
}

/// Interpolates the member values of an object in order, keys unchanged.
pub open spec fn interp_members(es: Seq<(Seq<char>, JV)>, vf: spec_fn(Seq<char>) -> Option<Seq<char>>) -> Result<(Seq<(Seq<char>, JV)>, Seq<Seq<char>>), ErrorCode>
    decreases es,
{
    if es.len() == 0 {
        Ok((Seq::empty(), Seq::empty()))
    } else {
        match interp_tree(es[0].1, vf) {
            Err(e) => Err(e),
            Ok((x, n)) => match interp_members(es.drop_first(), vf) {
                Err(e) => Err(e),
                Ok((xs, ns)) => Ok((seq![(es[0].0, x)] + xs, n + ns)),
            },
        }
    }
}

/// Interpolates every string value in the tree. Object keys are
/// never touched.
pub fn interpolate(value: Json, vars: &mut Vars) -> (r: Result<Json, Error>)
    ensures
        r is Ok <==> interp_tree(value@, value_fn(old(vars).process@, old(vars).files@)) is Ok,
        r matches Ok(j) ==> interp_tree(value@, value_fn(old(vars).process@, old(vars).files@))->Ok_0.0 == j@,
        r matches Err(e) ==> interp_tree(value@, value_fn(old(vars).process@, old(vars).files@)) == Err::<(JV, Seq<Seq<char>>), ErrorCode>(e.spec_code()),
        final(vars).process == old(vars).process,
        final(vars).files == old(vars).files,
        final(vars).origins == old(vars).origins,
        r is Ok ==> name_views(final(vars).used@) == name_views(old(vars).used@) + interp_tree(value@, value_fn(old(vars).process@, old(vars).files@))->Ok_0.1,
    decreases jv_of(value),
{
    let ghost vf = value_fn(vars.process@, vars.files@);
    let ghost used0 = name_views(vars.used@);
    match value {
        Json::Str(s) => interpolate_string(s.as_str(), vars),
        Json::Array(items) => {
            let ghost iv = jv_seq(items@);
            let mut out: Vec<Json> = Vec::new();
            let ghost mut names: Seq<Seq<char>> = Seq::empty();
            let mut rest = items;
            let ghost all = iv;
            assert(all.skip(0) == all);
            proof {
                match interp_items(all, vf) {
                    Ok((xs, ns)) => {
                        assert(Seq::<JV>::empty() + xs == xs);
                        assert(Seq::<Seq<char>>::empty() + ns == ns);
                    },
                    Err(_) => {},
                }
                assert(used0 + Seq::<Seq<char>>::empty() == used0);
            }
            let mut idx: usize = 0;
            let n = rest.len();
            let mut rest = crate::text::reversed(rest);
            while rest.len() > 0
                invariant
                    idx + rest.len() == n,
                    n == all.len(),
                    jv_of(value) == JV::Arr(all),
                    forall|j: int| 0 <= j < rest.len() ==> jv_of(#[trigger] rest@[j]) == all[n - 1 - j],
                    vf == value_fn(vars.process@, vars.files@),
                    vars.process == old(vars).process,
                    vars.files == old(vars).files,
                    vars.origins == old(vars).origins,
                    used0 == name_views(old(vars).used@),
                    name_views(vars.used@) == used0 + names,
                    interp_items(all, vf) == match interp_items(all.skip(idx as int), vf) {
                        Err(e) => Err(e),
                        Ok((xs, ns)) => Ok((jv_seq(out@) + xs, names + ns)),
                    },
                decreases rest.len(),
            {
                let item = rest.pop().unwrap();
                let ghost u = all.skip(idx as int);
                assert(u[0] == jv_of(item));
                assert(u.drop_first() == all.skip(idx + 1));
                let ghost vused = name_views(vars.used@);
                assert(decreases_to!(JV::Arr(all) => all[idx as int]));
                assert(interp_tree(jv_of(item), vf) is Err ==> interp_items(u, vf) == Err::<(Seq<JV>, Seq<Seq<char>>), ErrorCode>(interp_tree(jv_of(item), vf)->Err_0));
                let x = interpolate(item, vars)?;
                let ghost ns1 = interp_tree(jv_of(item), vf)->Ok_0.1;
                proof {
                    assert(interp_items(u, vf) == match interp_items(u.drop_first(), vf) {
                        Err(e) => Err(e),
                        Ok((xs, ns)) => Ok((seq![x@] + xs, ns1 + ns)),
                    });
                    assert(name_views(vars.used@) == used0 + (names + ns1));
                    match interp_items(all.skip(idx + 1), vf) {
                        Ok((xs, ns)) => {
                            assert(names + (ns1 + ns) == (names + ns1) + ns);
                        },
                        Err(_) => {},
                    }
                    names = names + ns1;
                }
                let ghost old_out = jv_seq(out@);
                out.push(x);
                assert(jv_seq(out@) == old_out.push(x@));
                proof {
                    match interp_items(all.skip(idx + 1), vf) {
                        Ok((xs, ns)) => {
                            assert(old_out + (seq![x@] + xs) == old_out.push(x@) + xs);
                        },
                        Err(_) => {},
                    }
                }
                idx = idx + 1;
            }
            assert(all.skip(idx as int) == Seq::<JV>::empty());
            assert(jv_seq(out@) + Seq::<JV>::empty() == jv_seq(out@));
            assert(names + Seq::<Seq<char>>::empty() == names);
            Ok(Json::Array(out))
        },
        Json::Object(entries) => {
            let ghost all = jv_entries(entries@);
            let mut out: Vec<(String, Json)> = Vec::new();
            let ghost mut names: Seq<Seq<char>> = Seq::empty();
            let mut rest = entries;
            assert(all.skip(0) == all);
            proof {
                match interp_members(all, vf) {
                    Ok((xs, ns)) => {
                        assert(Seq::<(Seq<char>, JV)>::empty() + xs == xs);
                        assert(Seq::<Seq<char>>::empty() + ns == ns);
                    },
                    Err(_) => {},
                }
                assert(used0 + Seq::<Seq<char>>::empty() == used0);
            }
            let mut idx: usize = 0;
            let n = rest.len();
            let mut rest = crate::text::reversed(rest);
            while rest.len() > 0
                invariant
                    idx + rest.len() == n,
                    n == all.len(),
                    jv_of(value) == JV::Obj(all),
                    forall|j: int| 0 <= j < rest.len() ==> (#[trigger] rest@[j].0@, jv_of(rest@[j].1)) == all[n - 1 - j],
                    vf == value_fn(vars.process@, vars.files@),
                    vars.process == old(vars).process,
                    vars.files == old(vars).files,
                    vars.origins == old(vars).origins,
                    used0 == name_views(old(vars).used@),
                    name_views(vars.used@) == used0 + names,
                    interp_members(all, vf) == match interp_members(all.skip(idx as int), vf) {
                        Err(e) => Err(e),
                        Ok((xs, ns)) => Ok((jv_entries(out@) + xs, names + ns)),
                    },
                decreases rest.len(),
            {
                let (key, item) = rest.pop().unwrap();
                let ghost u = all.skip(idx as int);
                assert(u[0] == (key@, jv_of(item)));
                assert(u.drop_first() == all.skip(idx + 1));
                assert(decreases_to!(JV::Obj(all) => all[idx as int].1));
                assert(interp_tree(jv_of(item), vf) is Err ==> interp_members(u, vf) == Err::<(Seq<(Seq<char>, JV)>, Seq<Seq<char>>), ErrorCode>(interp_tree(jv_of(item), vf)->Err_0));
                let x = interpolate(item, vars)?;
                let ghost ns1 = interp_tree(jv_of(item), vf)->Ok_0.1;
                proof {
                    assert(interp_members(u, vf) == match interp_members(u.drop_first(), vf) {
                        Err(e) => Err(e),
                        Ok((xs, ns)) => Ok((seq![(key@, x@)] + xs, ns1 + ns)),
                    });
                    assert(name_views(vars.used@) == used0 + (names + ns1));
                    match interp_members(all.skip(idx + 1), vf) {
                        Ok((xs, ns)) => {
                            assert(names + (ns1 + ns) == (names + ns1) + ns);
                        },
                        Err(_) => {},
                    }
                    names = names + ns1;
                }
                let ghost old_out = jv_entries(out@);
                out.push((key, x));
                assert(jv_entries(out@) == old_out.push((key@, x@)));
                proof {
                    match interp_members(all.skip(idx + 1), vf) {
                        Ok((xs, ns)) => {
                            assert(old_out + (seq![(key@, x@)] + xs) == old_out.push((key@, x@)) + xs);
                        },
                        Err(_) => {},
                    }
                }
                idx = idx + 1;
            }
            assert(all.skip(idx as int) == Seq::<(Seq<char>, JV)>::empty());
            assert(jv_entries(out@) + Seq::<(Seq<char>, JV)>::empty() == jv_entries(out@));
            assert(names + Seq::<Seq<char>>::empty() == names);
            Ok(Json::Object(out))
        },
        Json::Null => Ok(Json::Null),
        Json::Bool(b) => Ok(Json::Bool(b)),
        Json::Number(n) => Ok(Json::Number(n)),
    }
}

} // verus!
