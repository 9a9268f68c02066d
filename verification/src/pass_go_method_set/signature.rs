//! Canonical form of Go function and method signatures.
use vstd::prelude::*;

use crate::text::{chars_of, same_text, string_of, sub_chars, trim_chars, trim_text};

verus! {

/// Canonical byte form of a signature; two signatures agree when the bytes do.
#[derive(Debug, Clone, PartialEq, Eq, Hash, PartialOrd, Ord)]
pub struct NormalizedSignature(pub Vec<u8>);

/// The characters that can start a Go identifier.
pub open spec fn ident_start(c: char) -> bool {
    ('a' <= c && c <= 'z') || ('A' <= c && c <= 'Z') || c == '_'
}

/// The characters that can continue a Go identifier.
pub open spec fn ident_continue(c: char) -> bool {
    ident_start(c) || ('0' <= c && c <= '9')
}

/// Blank, tab, line feed and carriage return.
pub open spec fn ascii_space(c: char) -> bool {
    c == ' ' || c == '\t' || c == '\n' || c == '\r'
}

fn is_ident_start(c: char) -> (r: bool)
    ensures
        r == ident_start(c),
{
    ('a' <= c && c <= 'z') || ('A' <= c && c <= 'Z') || c == '_'
}

fn is_ident_continue(c: char) -> (r: bool)
    ensures
        r == ident_continue(c),
{
    is_ident_start(c) || ('0' <= c && c <= '9')
}

fn is_ascii_space(c: char) -> (r: bool)
    ensures
        r == ascii_space(c),
{
    c == ' ' || c == '\t' || c == '\n' || c == '\r'
}

/// How often `c` occurs among the first `n` characters of `s`.
pub open spec fn count_char(s: Seq<char>, c: char, n: int) -> int
    decreases n,
{
    if n <= 0 {
        0
    } else if s[n - 1] == c {
        count_char(s, c, n - 1) + 1
    } else {
        count_char(s, c, n - 1)
    }
}

/// How many round brackets are open after the first `n` characters of `s`.
pub open spec fn paren_depth(s: Seq<char>, n: int) -> int {
    count_char(s, '(', n) - count_char(s, ')', n)
}

/// The first and the last character of `s` are a matching pair of round brackets.
pub open spec fn wrapped(s: Seq<char>) -> bool {
    &&& s.len() >= 2
    &&& s[0] == '('
    &&& s[s.len() - 1] == ')'
    &&& paren_depth(s, s.len() as int) == 0
    &&& forall|i: int|
        0 <= i < s.len() - 1 && #[trigger] s[i] == ')' ==> paren_depth(s, i + 1) != 0
}

/// `s` without one pair of round brackets that encloses all of it.
pub open spec fn unwrapped(s: Seq<char>) -> Seq<char> {
    if wrapped(s) {
        s.subrange(1, s.len() - 1)
    } else {
        s
    }
}

/// Strips one matched pair of outer round brackets.
pub fn strip_outer_parens(s: &Vec<char>) -> (r: Vec<char>)
    ensures
        r@ == unwrapped(s@),
{
    let n: usize = s.len();
    if n < 2 || s[0] != '(' || s[n - 1] != ')' {
        return sub_all(s);
    }
    let mut depth: i128 = 0;
    for i in 0..n
        invariant
            n == s@.len(),
            n >= 2,
            -(i as int) <= depth <= i,
            depth == paren_depth(s@, i as int),
            forall|j: int|
                0 <= j < i && j < s@.len() - 1 && #[trigger] s@[j] == ')' ==> paren_depth(
                    s@,
                    j + 1,
                ) != 0,
    {
        if s[i] == '(' {
            depth = depth + 1;
        } else if s[i] == ')' {
            depth = depth - 1;
            if depth == 0 && i != n - 1 {
                assert(s@[i as int] == ')');
                return sub_all(s);
            }
        }
    }
    if depth != 0 {
        return sub_all(s);
    }
    sub_chars(s, 1, n - 1)
}

fn sub_all(s: &Vec<char>) -> (r: Vec<char>)
    ensures
        r@ == s@,
{
    proof {
        assert(s@.subrange(0, s@.len() as int) =~= s@);
    }
    sub_chars(s, 0, s.len())
}

/// Of the first `n` characters of `s`, the last that is no space is `<`.
pub open spec fn after_angle(s: Seq<char>, n: int) -> bool
    decreases n,
{
    n > 0 && (s[n - 1] == '<' || (ascii_space(s[n - 1]) && after_angle(s, n - 1)))
}

/// How many channel arrows, `<-`, the first `n` characters of `s` hold.
pub open spec fn count_arrows(s: Seq<char>, n: int) -> int
    decreases n,
{
    if n <= 0 {
        0
    } else if s[n - 1] == '-' && after_angle(s, n - 1) {
        count_arrows(s, n - 1) + 1
    } else {
        count_arrows(s, n - 1)
    }
}

/// Position `i` of `s` lies inside no round, square or angle bracket. The `<` of a
/// channel arrow is no bracket.
pub open spec fn top_level(s: Seq<char>, i: int) -> bool {
    &&& count_char(s, '(', i) == count_char(s, ')', i)
    &&& count_char(s, '[', i) == count_char(s, ']', i)
    &&& count_char(s, '<', i) - count_arrows(s, i) == count_char(s, '>', i)
}

/// A comma at position `i` of `s` that separates two parts.
pub open spec fn separates(s: Seq<char>, i: int) -> bool {
    s[i] == ',' && top_level(s, i)
}

/// Where the part of `s` begins that position `n` belongs to.
pub open spec fn part_start(s: Seq<char>, n: int) -> int
    decreases n,
{
    if n <= 0 {
        0
    } else if separates(s, n - 1) {
        n
    } else {
        part_start(s, n - 1)
    }
}

/// The parts of `s` that end before position `n`.
pub open spec fn parts_before(s: Seq<char>, n: int) -> Seq<Seq<char>>
    decreases n,
{
    if n <= 0 {
        Seq::empty()
    } else if separates(s, n - 1) {
        parts_before(s, n - 1).push(s.subrange(part_start(s, n - 1), n - 1))
    } else {
        parts_before(s, n - 1)
    }
}

/// `s` split at its top-level commas.
pub open spec fn parts(s: Seq<char>) -> Seq<Seq<char>> {
    parts_before(s, s.len() as int).push(
        s.subrange(part_start(s, s.len() as int), s.len() as int),
    )
}

proof fn lemma_part_start(s: Seq<char>, n: int)
    requires
        0 <= n,
    ensures
        0 <= part_start(s, n) <= n,
    decreases n,
{
    if n > 0 {
        lemma_part_start(s, n - 1);
    }
}

/// Contents of a list of texts.
pub open spec fn all_chars(v: Seq<Vec<char>>) -> Seq<Seq<char>> {
    Seq::new(v.len(), |i: int| v[i]@)
}

/// Splits `s` at its top-level commas.
pub fn split_top_level_commas(s: &Vec<char>) -> (r: Vec<Vec<char>>)
    ensures
        all_chars(r@) == parts(s@),
{
    let mut out: Vec<Vec<char>> = Vec::new();
    let mut round: i128 = 0;
    let mut square: i128 = 0;
    let mut angle: i128 = 0;
    let mut open: bool = false;
    let mut start: usize = 0;
    proof {
        assert(all_chars(out@) =~= Seq::<Seq<char>>::empty());
    }
    for i in 0..s.len()
        invariant
            -(i as int) <= round <= i,
            -(i as int) <= square <= i,
            -(i as int) <= angle <= i,
            round == count_char(s@, '(', i as int) - count_char(s@, ')', i as int),
            square == count_char(s@, '[', i as int) - count_char(s@, ']', i as int),
            angle == count_char(s@, '<', i as int) - count_arrows(s@, i as int) - count_char(
                s@,
                '>',
                i as int,
            ),
            open == after_angle(s@, i as int),
            start == part_start(s@, i as int),
            start <= i,
            all_chars(out@) == parts_before(s@, i as int),
    {
        let c: char = s[i];
        if c == '(' {
            round = round + 1;
        } else if c == ')' {
            round = round - 1;
        } else if c == '[' {
            square = square + 1;
        } else if c == ']' {
            square = square - 1;
        } else if c == '<' {
            angle = angle + 1;
        } else if c == '>' || (c == '-' && open) {
            angle = angle - 1;
        } else if c == ',' && round == 0 && square == 0 && angle == 0 {
            let ghost before = all_chars(out@);
            let part = sub_chars(s, start, i);
            proof {
                assert(separates(s@, i as int));
            }
            out.push(part);
            start = i + 1;
            proof {
                assert(all_chars(out@) =~= before.push(part@));
            }
        }
        open = c == '<' || (open && is_ascii_space(c));
    }
    let ghost before = all_chars(out@);
    let part = sub_chars(s, start, s.len());
    out.push(part);
    proof {
        assert(all_chars(out@) =~= before.push(part@));
    }
    out
}

/// The first position at or after `i` that does not continue an identifier.
pub open spec fn ident_end(s: Seq<char>, i: int) -> int
    decreases s.len() - i,
{
    if i < s.len() && ident_continue(s[i]) {
        ident_end(s, i + 1)
    } else {
        i
    }
}

/// The first position at or after `i` that holds no space.
pub open spec fn space_end(s: Seq<char>, i: int) -> int
    decreases s.len() - i,
{
    if i < s.len() && ascii_space(s[i]) {
        space_end(s, i + 1)
    } else {
        i
    }
}

/// The words that open a Go type and so are no parameter names.
pub open spec fn type_keyword(s: Seq<char>) -> bool {
    s == "chan"@ || s == "map"@ || s == "func"@ || s == "interface"@ || s == "struct"@
}

/// `s` starts with a parameter name, and the type starts at the given position.
pub open spec fn named_type_at(s: Seq<char>) -> Option<int> {
    if s.len() == 0 || !ident_start(s[0]) {
        None
    } else {
        let i = ident_end(s, 1);
        let j = space_end(s, i + 1);
        if i >= s.len() || !ascii_space(s[i]) || type_keyword(s.take(i)) || j >= s.len() {
            None
        } else {
            Some(j)
        }
    }
}

/// `s` without a leading parameter name.
pub open spec fn without_name(s: Seq<char>) -> Seq<char> {
    match named_type_at(s) {
        Some(j) => s.subrange(j, s.len() as int),
        None => s,
    }
}

fn is_type_keyword(s: &Vec<char>, n: usize) -> (r: bool)
    requires
        n <= s@.len(),
    ensures
        r == type_keyword(s@.take(n as int)),
{
    let word = string_of(&sub_chars(s, 0, n));
    let w: &str = word.as_str();
    proof {
        assert(s@.subrange(0, n as int) =~= s@.take(n as int));
    }
    same_text(w, "chan") || same_text(w, "map") || same_text(w, "func") || same_text(
        w,
        "interface",
    ) || same_text(w, "struct")
}

/// Strips a leading parameter name from `token`.
pub fn strip_leading_parameter_name(token: &Vec<char>) -> (r: Vec<char>)
    ensures
        r@ == without_name(token@),
{
    let n: usize = token.len();
    if n == 0 || !is_ident_start(token[0]) {
        return sub_all(token);
    }
    let mut i: usize = 1;
    while i < n && is_ident_continue(token[i])
        invariant
            n == token@.len(),
            1 <= i <= n,
            ident_end(token@, 1) == ident_end(token@, i as int),
        decreases n - i,
    {
        i = i + 1;
    }
    assert(ident_end(token@, 1) == i);
    if i >= n || !is_ascii_space(token[i]) {
        return sub_all(token);
    }
    if is_type_keyword(token, i) {
        return sub_all(token);
    }
    let mut j: usize = i + 1;
    while j < n && is_ascii_space(token[j])
        invariant
            n == token@.len(),
            i < j <= n,
            space_end(token@, i + 1) == space_end(token@, j as int),
        decreases n - j,
    {
        j = j + 1;
    }
    assert(space_end(token@, i + 1) == j);
    if j >= n {
        return sub_all(token);
    }
    sub_chars(token, j, n)
}

/// The first `n` characters of `s` without spaces, but for one blank between
/// two identifier characters that spaces part.
pub open spec fn squeezed(s: Seq<char>, n: int) -> Seq<char>
    decreases n,
{
    if n <= 0 {
        Seq::empty()
    } else {
        let out = squeezed(s, n - 1);
        let c = s[n - 1];
        if ascii_space(c) {
            out
        } else if n >= 2 && ascii_space(s[n - 2]) && out.len() > 0 && ident_continue(out.last())
            && ident_continue(c) {
            out.push(' ').push(c)
        } else {
            out.push(c)
        }
    }
}

/// A type text with its spaces normalised.
pub open spec fn type_text(s: Seq<char>) -> Seq<char> {
    let t = trim_text(s);
    squeezed(t, t.len() as int)
}

/// Normalises the spaces of a type text.
pub fn normalise_type_text(s: &Vec<char>) -> (r: Vec<char>)
    ensures
        r@ == type_text(s@),
{
    let t = trim_chars(s);
    let mut out: Vec<char> = Vec::new();
    let mut pending = false;
    for i in 0..t.len()
        invariant
            out@ == squeezed(t@, i as int),
            pending == (i >= 1 && ascii_space(t@[i - 1])),
    {
        let c: char = t[i];
        if is_ascii_space(c) {
            pending = true;
        } else {
            let n: usize = out.len();
            if pending && n > 0 && is_ident_continue(out[n - 1]) && is_ident_continue(c) {
                out.push(' ');
            }
            out.push(c);
            pending = false;
        }
    }
    out
}

/// A parameter without its name, spaces normalised.
pub open spec fn param_text(s: Seq<char>) -> Seq<char> {
    let t = trim_text(s);
    if t.len() == 0 {
        t
    } else {
        type_text(without_name(t))
    }
}

/// Normalises one parameter.
pub fn normalise_param_token(token: &Vec<char>) -> (r: Vec<char>)
    ensures
        r@ == param_text(token@),
{
    let t = trim_chars(token);
    if t.len() == 0 {
        return t;
    }
    let bare = strip_leading_parameter_name(&t);
    normalise_type_text(&bare)
}

/// The first `n` parts, each normalised as a parameter, with commas between them.
pub open spec fn joined_params(p: Seq<Seq<char>>, n: int) -> Seq<char>
    decreases n,
{
    if n <= 0 {
        Seq::empty()
    } else if n == 1 {
        param_text(trim_text(p[0]))
    } else {
        joined_params(p, n - 1).push(',') + param_text(trim_text(p[n - 1]))
    }
}

/// The first `n` parts, each normalised as a type, with commas between them.
pub open spec fn joined_types(p: Seq<Seq<char>>, n: int) -> Seq<char>
    decreases n,
{
    if n <= 0 {
        Seq::empty()
    } else if n == 1 {
        type_text(trim_text(p[0]))
    } else {
        joined_types(p, n - 1).push(',') + type_text(trim_text(p[n - 1]))
    }
}

/// What stands between the round brackets of a list, without outer white space.
pub open spec fn list_body(s: Seq<char>) -> Seq<char> {
    trim_text(unwrapped(trim_text(s)))
}

/// The canonical parameter list, without its brackets.
pub open spec fn canonical_params(s: Seq<char>) -> Seq<char> {
    let body = list_body(s);
    if body.len() == 0 {
        Seq::empty()
    } else {
        joined_params(parts(body), parts(body).len() as int)
    }
}

/// The canonical return clause: nothing, one type, or a list in brackets.
pub open spec fn canonical_returns(s: Seq<char>) -> Seq<char> {
    let body = list_body(s);
    let p = parts(body);
    if body.len() == 0 {
        Seq::empty()
    } else if p.len() == 1 {
        joined_types(p, 1)
    } else {
        seq!['('] + joined_types(p, p.len() as int) + seq![')']
    }
}

/// The canonical signature as text.
pub open spec fn canonical_signature(params: Seq<char>, results: Seq<char>) -> Seq<char> {
    seq!['('] + canonical_params(params) + seq![')'] + canonical_returns(results)
}

fn append_chars(out: &mut Vec<char>, tail: &Vec<char>)
    ensures
        final(out)@ == old(out)@ + tail@,
{
    let ghost head = out@;
    for i in 0..tail.len()
        invariant
            out@ == head + tail@.take(i as int),
    {
        out.push(tail[i]);
        proof {
            assert(head + tail@.take(i + 1) =~= (head + tail@.take(i as int)).push(
                tail@[i as int],
            ));
        }
    }
    proof {
        assert(tail@.take(tail@.len() as int) =~= tail@);
    }
}

/// Canonicalises a parameter list, with or without its brackets; the result has none.
pub fn canonicalise_param_list(params: &str) -> (r: String)
    ensures
        r@ == canonical_params(params@),
{
    let text = chars_of(params);
    let body = trim_chars(&strip_outer_parens(&trim_chars(&text)));
    if body.len() == 0 {
        return String::new();
    }
    let pieces = split_top_level_commas(&body);
    let ghost p = parts(body@);
    let mut out: Vec<char> = Vec::new();
    for i in 0..pieces.len()
        invariant
            p == all_chars(pieces@),
            out@ == joined_params(p, i as int),
    {
        let piece = normalise_param_token(&trim_chars(&pieces[i]));
        proof {
            assert(p[i as int] == pieces@[i as int]@);
        }
        if i > 0 {
            out.push(',');
            append_chars(&mut out, &piece);
        } else {
            append_chars(&mut out, &piece);
            proof {
                assert(Seq::<char>::empty() + piece@ =~= piece@);
            }
        }
    }
    string_of(&out)
}

/// Canonicalises a return clause.
pub fn canonicalise_return_clause(results: &str) -> (r: String)
    ensures
        r@ == canonical_returns(results@),
{
    let text = chars_of(results);
    let body = trim_chars(&strip_outer_parens(&trim_chars(&text)));
    if body.len() == 0 {
        return String::new();
    }
    let pieces = split_top_level_commas(&body);
    let ghost p = parts(body@);
    let mut list: Vec<char> = Vec::new();
    for i in 0..pieces.len()
        invariant
            p == all_chars(pieces@),
            list@ == joined_types(p, i as int),
    {
        let piece = normalise_type_text(&trim_chars(&pieces[i]));
        proof {
            assert(p[i as int] == pieces@[i as int]@);
        }
        if i > 0 {
            list.push(',');
            append_chars(&mut list, &piece);
        } else {
            append_chars(&mut list, &piece);
            proof {
                assert(Seq::<char>::empty() + piece@ =~= piece@);
            }
        }
    }
    if pieces.len() == 1 {
        return string_of(&list);
    }
    let mut out: Vec<char> = Vec::new();
    out.push('(');
    append_chars(&mut out, &list);
    out.push(')');
    proof {
        assert(out@ =~= seq!['('] + list@ + seq![')']);
    }
    string_of(&out)
}

/// Canonicalises a signature: the parameter types in brackets, without names, then
/// the return clause, spaces normalised throughout.
pub fn canonicalise_signature(params: &str, results: &str) -> (r: NormalizedSignature)
    ensures
        r.0@ == vstd::utf8::encode_utf8(canonical_signature(params@, results@)),
{
    let p = canonicalise_param_list(params);
    let q = canonicalise_return_clause(results);
    let mut text = String::new();
    text.push('(');
    text.append(p.as_str());
    text.push(')');
    text.append(q.as_str());
    proof {
        assert(text@ =~= canonical_signature(params@, results@));
    }
    NormalizedSignature(text.as_str().as_bytes_vec())
}

} // verus!
