use vstd::prelude::*;
use crate::text::{
    append_chars, append_to_string, chars_of, find_char, find_from, is_space, lemma_find_from,
    push_char, slice_of, space,
};

verus! {

/// `s` without its leading white space.
pub open spec fn trim_start(s: Seq<char>) -> Seq<char>
    decreases s.len(),
{
    if s.len() > 0 && is_space(s[0]) {
        trim_start(s.drop_first())
    } else {
        s
    }
}

/// `s` without its trailing white space.
pub open spec fn trim_end(s: Seq<char>) -> Seq<char>
    decreases s.len(),
{
    if s.len() > 0 && is_space(s.last()) {
        trim_end(s.drop_last())
    } else {
        s
    }
}

/// `s` without leading or trailing white space.
pub open spec fn trim(s: Seq<char>) -> Seq<char> {
    trim_end(trim_start(s))
}

/// `s` with every white-space character removed.
pub open spec fn strip_spaces(s: Seq<char>) -> Seq<char>
    decreases s.len(),
{
    if s.len() == 0 {
        s
    } else if is_space(s.last()) {
        strip_spaces(s.drop_last())
    } else {
        strip_spaces(s.drop_last()).push(s.last())
    }
}

/// A `//` starts at index `i` of `s`.
pub open spec fn comment_at(s: Seq<char>, i: int) -> bool {
    0 <= i && i + 1 < s.len() && s[i] == '/' && s[i + 1] == '/'
}

/// Where the first `//` at or after `k` starts, or the length of `s`.
pub open spec fn comment_from(s: Seq<char>, k: int) -> int
    decreases s.len() - k,
{
    if k + 1 >= s.len() {
        s.len() as int
    } else if comment_at(s, k) {
        k
    } else {
        comment_from(s, k + 1)
    }
}

/// The destination put in where a C-instruction has none.
pub open spec fn null_eq() -> Seq<char> {
    seq!['N', 'U', 'L', 'L', '=']
}

/// The jump put in where a C-instruction has none.
pub open spec fn semi_null() -> Seq<char> {
    seq![';', 'N', 'U', 'L', 'L']
}

/// An A-instruction or label line, by its first character.
pub open spec fn is_a_or_label(s: Seq<char>) -> bool {
    s.len() > 0 && (s[0] == '@' || s[0] == '(')
}

/// A C-instruction spelt out as `DEST=COMP;JUMP`, with `NULL` for an omitted
/// destination or jump.
pub open spec fn with_defaults(s: Seq<char>) -> Seq<char> {
    if is_a_or_label(s) {
        s
    } else {
        let a = if s.contains('=') { s } else { null_eq() + s };
        if a.contains(';') { a } else { a + semi_null() }
    }
}

/// The canonical form of one source line, or `None` where the line is blank
/// or a comment.
pub open spec fn normalize_line(line: Seq<char>) -> Option<Seq<char>> {
    let t = trim(line);
    if t.len() == 0 || comment_at(t, 0) {
        None
    } else {
        let u = strip_spaces(t);
        Some(with_defaults(u.take(comment_from(u, 0))))
    }
}

/// The lines of `s`, split at each `\n`; a final `\n` ends the last line.
pub open spec fn split_lines(s: Seq<char>) -> Seq<Seq<char>>
    decreases s.len(),
{
    if s.len() == 0 {
        seq![]
    } else {
        let i = find_from(s, '\n', 0);
        if 0 <= i < s.len() {
            seq![s.take(i)] + split_lines(s.skip(i + 1))
        } else {
            seq![s]
        }
    }
}

/// The canonical forms of the lines that are kept.
pub open spec fn kept_lines(ls: Seq<Seq<char>>) -> Seq<Seq<char>>
    decreases ls.len(),
{
    if ls.len() == 0 {
        seq![]
    } else {
        let rest = kept_lines(ls.drop_first());
        match normalize_line(ls[0]) {
            Some(l) => seq![l] + rest,
            None => rest,
        }
    }
}

/// Each line followed by `\n`.
pub open spec fn join_lines(ls: Seq<Seq<char>>) -> Seq<char>
    decreases ls.len(),
{
    if ls.len() == 0 {
        seq![]
    } else {
        ls[0].push('\n') + join_lines(ls.drop_first())
    }
}

/// The canonical lines of a source text.
pub open spec fn canonical_lines(src: Seq<char>) -> Seq<Seq<char>> {
    kept_lines(split_lines(src))
}

/// The normalized text of a source text.
pub open spec fn normalized(src: Seq<char>) -> Seq<char> {
    join_lines(canonical_lines(src))
}

/// The character sequences held by a list of lines.
pub open spec fn views(v: Seq<Vec<char>>) -> Seq<Seq<char>> {
    v.map_values(|l: Vec<char>| l@)
}

proof fn lemma_comment_from_bounds(s: Seq<char>, k: int)
    requires
        0 <= k,
    ensures
        k <= comment_from(s, k) <= s.len() || (k >= s.len() && comment_from(s, k) == s.len()),
        comment_from(s, k) < s.len() ==> comment_at(s, comment_from(s, k)),
    decreases s.len() - k,
{
    if k + 1 < s.len() && !comment_at(s, k) {
        lemma_comment_from_bounds(s, k + 1);
    }
}

/// The bounds of `line` without its leading and trailing white space.
fn trim_bounds(line: &Vec<char>) -> (r: (usize, usize))
    ensures
        r.0 <= r.1 <= line.len(),
        trim(line@) == line@.subrange(r.0 as int, r.1 as int),
{
    let n = line.len();
    let mut s: usize = 0;
    assert(line@.skip(0) =~= line@);
    while s < n && space(line[s])
        invariant
            s <= n == line.len(),
            trim_start(line@) == trim_start(line@.skip(s as int)),
        decreases n - s,
    {
        assert(line@.skip(s as int).drop_first() =~= line@.skip(s + 1));
        s += 1;
    }
    assert(line@.skip(s as int) =~= line@.subrange(s as int, n as int));
    let mut e: usize = n;
    while e > s && space(line[e - 1])
        invariant
            s <= e <= n == line.len(),
            trim(line@) == trim_end(line@.subrange(s as int, e as int)),
        decreases e,
    {
        assert(line@.subrange(s as int, e as int).drop_last() =~= line@.subrange(
            s as int,
            e - 1,
        ));
        e -= 1;
    }
    (s, e)
}

/// `line[s..e]` without white space.
fn strip_exec(line: &Vec<char>, s: usize, e: usize) -> (u: Vec<char>)
    requires
        s <= e <= line.len(),
    ensures
        u@ == strip_spaces(line@.subrange(s as int, e as int)),
{
    let ghost t = line@.subrange(s as int, e as int);
    let mut u: Vec<char> = Vec::new();
    let mut i: usize = s;
    assert(t.take(0) =~= seq![]);
    while i < e
        invariant
            s <= i <= e <= line.len(),
            t == line@.subrange(s as int, e as int),
            u@ == strip_spaces(t.take(i - s)),
        decreases e - i,
    {
        assert(t.take(i - s + 1).drop_last() =~= t.take(i - s));
        if !space(line[i]) {
            u.push(line[i]);
        }
        i += 1;
    }
    assert(t.take(e - s) =~= t);
    u
}

/// `u` up to its first `//`.
fn cut_comment(u: &Vec<char>) -> (w: Vec<char>)
    ensures
        w@ == u@.take(comment_from(u@, 0)),
{
    let mut j: usize = 0;
    while j < u.len() && j + 1 < u.len() && !(u[j] == '/' && u[j + 1] == '/')
        invariant
            j <= u.len(),
            comment_from(u@, j as int) == comment_from(u@, 0),
        decreases u.len() - j,
    {
        j += 1;
    }
    let cut = if j < u.len() && j + 1 < u.len() { j } else { u.len() };
    let w = slice_of(u, 0, cut);
    assert(w@ =~= u@.take(comment_from(u@, 0)));
    w
}

/// `w` with `NULL` put in for an omitted destination or jump.
fn add_defaults(w: Vec<char>) -> (a: Vec<char>)
    ensures
        a@ == with_defaults(w@),
{
    if w.len() > 0 && (w[0] == '@' || w[0] == '(') {
        return w;
    }
    let eq = find_char(&w, '=', 0);
    proof {
        lemma_find_from(w@, '=', 0);
    }
    let mut a: Vec<char>;
    if eq < w.len() {
        assert(w@.contains('='));
        a = w;
    } else {
        a = Vec::new();
        a.push('N');
        a.push('U');
        a.push('L');
        a.push('L');
        a.push('=');
        append_chars(&mut a, &w);
        assert(a@ =~= null_eq() + w@);
    }
    let semi = find_char(&a, ';', 0);
    proof {
        lemma_find_from(a@, ';', 0);
    }
    if semi >= a.len() {
        let ghost before = a@;
        a.push(';');
        a.push('N');
        a.push('U');
        a.push('L');
        a.push('L');
        assert(a@ =~= before + semi_null());
    } else {
        assert(a@.contains(';'));
    }
    a
}

/// Canonical form of one line.
fn normalize_line_exec(line: &Vec<char>) -> (r: Option<Vec<char>>)
    ensures
        r is Some <==> normalize_line(line@) is Some,
        r is Some ==> r->0@ == normalize_line(line@)->0,
{
    let (s, e) = trim_bounds(line);
    if e == s {
        return None;
    }
    if e - s >= 2 && line[s] == '/' && line[s + 1] == '/' {
        return None;
    }
    let u = strip_exec(line, s, e);
    let w = cut_comment(&u);
    Some(add_defaults(w))
}

proof fn lemma_find_skip(s: Seq<char>, c: char, p: int, k: int)
    requires
        0 <= p <= k <= s.len(),
    ensures
        find_from(s.skip(p), c, k - p) == find_from(s, c, k) - p,
    decreases s.len() - k,
{
    if k < s.len() && s[k] != c {
        lemma_find_skip(s, c, p, k + 1);
    }
}

/// The canonical lines of the characters `src`.
pub fn normalized_lines(src: &Vec<char>) -> (r: Vec<Vec<char>>)
    ensures
        views(r@) == canonical_lines(src@),
{
    let n = src.len();
    let mut out: Vec<Vec<char>> = Vec::new();
    let mut pos: usize = 0;
    assert(src@.skip(0) =~= src@);
    assert(views(out@) =~= seq![]);
    while pos < n
        invariant
            pos <= n == src.len(),
            canonical_lines(src@) == views(out@) + kept_lines(split_lines(src@.skip(pos as int))),
        decreases n - pos,
    {
        let ghost t = src@.skip(pos as int);
        let i = find_char(src, '\n', pos);
        proof {
            lemma_find_from(src@, '\n', pos as int);
            lemma_find_skip(src@, '\n', pos as int, pos as int);
        }
        let seg = slice_of(src, pos, i);
        let ghost rest = if i < n { src@.skip(i + 1) } else { seq![] };
        proof {
            assert(seg@ =~= t.take(i - pos));
            if i < n {
                assert(t.skip(i - pos + 1) =~= rest);
            } else {
                assert(seg@ =~= t);
            }
            assert(split_lines(rest) == split_lines(t).drop_first());
            assert(split_lines(t)[0] == seg@);
            assert(kept_lines(split_lines(t)) == match normalize_line(seg@) {
                Some(l) => seq![l] + kept_lines(split_lines(rest)),
                None => kept_lines(split_lines(rest)),
            });
        }
        let ghost before = out@;
        match normalize_line_exec(&seg) {
            Some(l) => {
                out.push(l);
                assert(views(out@) =~= views(before).push(normalize_line(seg@)->0));
            },
            None => {},
        }
        pos = if i < n { i + 1 } else { n };
        proof {
            if i >= n {
                assert(src@.skip(pos as int) =~= seq![]);
            }
        }
    }
    assert(src@.skip(n as int) =~= seq![]);
    assert(views(out@) + seq![] =~= views(out@));
    out
}

/// Strips comments and white space from `content` and spells out every
/// C-instruction as `DEST=COMP;JUMP`; each kept line ends with `\n`.
pub fn normalize(content: &String) -> (r: String)
    ensures
        r@ == normalized(content@),
{
    let src = chars_of(content.as_str());
    let lines = normalized_lines(&src);
    let ghost ls = views(lines@);
    let mut out = String::new();
    let mut i: usize = 0;
    assert(ls.skip(0) =~= ls);
    while i < lines.len()
        invariant
            i <= lines.len(),
            ls == views(lines@),
            ls == canonical_lines(content@),
            out@ + join_lines(ls.skip(i as int)) == join_lines(ls),
        decreases lines.len() - i,
    {
        assert(ls.skip(i as int).drop_first() =~= ls.skip(i + 1));
        assert(ls.skip(i as int)[0] == lines[i as int]@);
        append_to_string(&mut out, &lines[i]);
        push_char(&mut out, '\n');
        i += 1;
    }
    assert(ls.skip(i as int) =~= seq![]);
    assert(out@ + seq![] =~= out@);
    out
}

/// `s` holds no white space.
pub open spec fn no_space(s: Seq<char>) -> bool {
    forall|i: int| 0 <= i < s.len() ==> !is_space(#[trigger] s[i])
}

/// `s` holds no `//`.
pub open spec fn no_comment(s: Seq<char>) -> bool {
    forall|i: int| !#[trigger] comment_at(s, i)
}

/// The shape of every line that the normalizer emits.
pub open spec fn is_canonical(l: Seq<char>) -> bool {
    &&& l.len() > 0
    &&& no_space(l)
    &&& no_comment(l)
    &&& !is_a_or_label(l) ==> l.contains('=') && l.contains(';')
}

proof fn lemma_strip_no_space(s: Seq<char>)
    ensures
        no_space(strip_spaces(s)),
    decreases s.len(),
{
    if s.len() > 0 {
        lemma_strip_no_space(s.drop_last());
    }
}

proof fn lemma_strip_keeps(s: Seq<char>)
    requires
        no_space(s),
    ensures
        strip_spaces(s) == s,
    decreases s.len(),
{
    if s.len() > 0 {
        assert(!is_space(s[s.len() - 1]));
        lemma_strip_keeps(s.drop_last());
        assert(s.drop_last().push(s.last()) =~= s);
    }
}

proof fn lemma_comment_from_none(s: Seq<char>, k: int)
    requires
        0 <= k,
        no_comment(s),
    ensures
        comment_from(s, k) == s.len(),
    decreases s.len() - k,
{
    assert(!comment_at(s, k));
    if k + 1 < s.len() {
        lemma_comment_from_none(s, k + 1);
    }
}

proof fn lemma_comment_from_scanned(s: Seq<char>, k: int)
    requires
        0 <= k,
    ensures
        forall|i: int| k <= i < comment_from(s, k) ==> !comment_at(s, i),
    decreases s.len() - k,
{
    if k + 1 < s.len() && !comment_at(s, k) {
        lemma_comment_from_scanned(s, k + 1);
    }
}

proof fn lemma_cut_no_comment(u: Seq<char>)
    ensures
        no_comment(u.take(comment_from(u, 0))),
        0 <= comment_from(u, 0) <= u.len(),
{
    lemma_comment_from_scanned(u, 0);
    lemma_comment_from_bounds(u, 0);
    let c = comment_from(u, 0);
    let t = u.take(c);
    assert forall|i: int| !#[trigger] comment_at(t, i) by {
        if comment_at(t, i) {
            assert(t[i] == u[i] && t[i + 1] == u[i + 1]);
            assert(comment_at(u, i));
        }
    }
}

proof fn lemma_defaults_canonical(w: Seq<char>)
    requires
        no_space(w),
        no_comment(w),
    ensures
        is_canonical(with_defaults(w)),
{
    let n = null_eq();
    let m = semi_null();
    if !is_a_or_label(w) {
        let a = if w.contains('=') { w } else { n + w };
        if !w.contains('=') {
            assert(a[4] == '=');
            assert forall|i: int| 0 <= i < a.len() implies !is_space(#[trigger] a[i]) by {
                if i >= 5 {
                    assert(a[i] == w[i - 5]);
                }
            }
            assert forall|i: int| !#[trigger] comment_at(a, i) by {
                if i >= 5 && comment_at(a, i) {
                    assert(comment_at(w, i - 5));
                }
            }
        }
        assert(a.contains('='));
        assert(a.len() > 0);
        if !a.contains(';') {
            let b = a + m;
            assert(b[a.len() as int] == ';');
            assert(b[0] == a[0]);
            assert forall|i: int| 0 <= i < b.len() implies !is_space(#[trigger] b[i]) by {
                if i < a.len() {
                    assert(b[i] == a[i]);
                }
            }
            assert forall|i: int| !#[trigger] comment_at(b, i) by {
                if i + 1 < a.len() && comment_at(b, i) {
                    assert(comment_at(a, i));
                }
            }
            let j = choose|j: int| 0 <= j < a.len() && a[j] == '=';
            assert(b[j] == '=');
        }
    }
}

proof fn lemma_line_canonical(line: Seq<char>)
    requires
        normalize_line(line) is Some,
    ensures
        is_canonical(normalize_line(line)->0),
{
    let u = strip_spaces(trim(line));
    lemma_strip_no_space(trim(line));
    lemma_cut_no_comment(u);
    let w = u.take(comment_from(u, 0));
    assert forall|i: int| 0 <= i < w.len() implies !is_space(#[trigger] w[i]) by {
        assert(w[i] == u[i]);
    }
    lemma_defaults_canonical(w);
}

proof fn lemma_canonical_fixed(l: Seq<char>)
    requires
        is_canonical(l),
    ensures
        normalize_line(l) == Some(l),
{
    assert(!is_space(l[0]));
    assert(!is_space(l[l.len() - 1]));
    assert(trim_start(l) == l);
    assert(trim(l) == l);
    assert(!comment_at(l, 0));
    lemma_strip_keeps(l);
    lemma_comment_from_none(l, 0);
    assert(l.take(l.len() as int) =~= l);
}

proof fn lemma_kept_canonical(ls: Seq<Seq<char>>)
    ensures
        forall|i: int| 0 <= i < kept_lines(ls).len() ==> is_canonical(#[trigger] kept_lines(ls)[i]),
    decreases ls.len(),
{
    if ls.len() > 0 {
        lemma_kept_canonical(ls.drop_first());
        if normalize_line(ls[0]) is Some {
            lemma_line_canonical(ls[0]);
            let k = kept_lines(ls);
            assert forall|i: int| 0 <= i < k.len() implies is_canonical(#[trigger] k[i]) by {
                if i > 0 {
                    assert(k[i] == kept_lines(ls.drop_first())[i - 1]);
                }
            }
        }
    }
}

proof fn lemma_kept_fixed(ls: Seq<Seq<char>>)
    requires
        forall|i: int| 0 <= i < ls.len() ==> is_canonical(#[trigger] ls[i]),
    ensures
        kept_lines(ls) == ls,
    decreases ls.len(),
{
    if ls.len() > 0 {
        lemma_canonical_fixed(ls[0]);
        assert forall|i: int| 0 <= i < ls.drop_first().len() implies is_canonical(
            #[trigger] ls.drop_first()[i],
        ) by {
            assert(ls.drop_first()[i] == ls[i + 1]);
        }
        lemma_kept_fixed(ls.drop_first());
        assert(seq![ls[0]] + ls.drop_first() =~= ls);
    }
}

proof fn lemma_find_past_line(a: Seq<char>, b: Seq<char>, k: int)
    requires
        0 <= k <= a.len(),
        no_space(a),
    ensures
        find_from(a.push('\n') + b, '\n', k) == a.len(),
    decreases a.len() - k,
{
    let s = a.push('\n') + b;
    if k < a.len() {
        assert(s[k] == a[k]);
        assert(!is_space(a[k]));
        lemma_find_past_line(a, b, k + 1);
    } else {
        assert(s[k] == '\n');
    }
}

proof fn lemma_split_join(ls: Seq<Seq<char>>)
    requires
        forall|i: int| 0 <= i < ls.len() ==> no_space(#[trigger] ls[i]),
    ensures
        split_lines(join_lines(ls)) == ls,
    decreases ls.len(),
{
    if ls.len() > 0 {
        let a = ls[0];
        let rest = join_lines(ls.drop_first());
        let s = join_lines(ls);
        assert(no_space(a));
        lemma_find_past_line(a, rest, 0);
        assert(s.take(a.len() as int) =~= a);
        assert(s.skip(a.len() as int + 1) =~= rest);
        assert forall|i: int| 0 <= i < ls.drop_first().len() implies no_space(
            #[trigger] ls.drop_first()[i],
        ) by {
            assert(ls.drop_first()[i] == ls[i + 1]);
        }
        lemma_split_join(ls.drop_first());
        assert(seq![a] + ls.drop_first() =~= ls);
    }
}

/// Normalizing a text that is already normalized changes nothing.
pub proof fn lemma_normalize_idempotent(src: Seq<char>)
    ensures
        normalized(normalized(src)) == normalized(src),
{
    let c = canonical_lines(src);
    lemma_kept_canonical(split_lines(src));
    lemma_split_join(c);
    lemma_kept_fixed(c);
}

} // verus!
