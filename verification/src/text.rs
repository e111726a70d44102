//! Character-level text handling: whitespace, lines and whitespace-separated tokens.
use vstd::prelude::*;

verus! {

/// The Unicode `White_Space` property, the set of characters that
/// `char::is_whitespace` accepts.
pub open spec fn is_ws(c: char) -> bool {
    ||| ('\u{9}' <= c && c <= '\u{d}')
    ||| c == ' '
    ||| c == '\u{85}'
    ||| c == '\u{a0}'
    ||| c == '\u{1680}'
    ||| ('\u{2000}' <= c && c <= '\u{200a}')
    ||| c == '\u{2028}'
    ||| c == '\u{2029}'
    ||| c == '\u{202f}'
    ||| c == '\u{205f}'
    ||| c == '\u{3000}'
}

/// Whether `c` is a whitespace character.
pub fn is_whitespace(c: char) -> (b: bool)
    ensures
        b == is_ws(c),
{
    ('\u{9}' <= c && c <= '\u{d}') || c == ' ' || c == '\u{85}' || c == '\u{a0}' || c == '\u{1680}'
        || ('\u{2000}' <= c && c <= '\u{200a}') || c == '\u{2028}' || c == '\u{2029}' || c
        == '\u{202f}' || c == '\u{205f}' || c == '\u{3000}'
}

/// The characters of `s`, in order.
pub fn chars_of(s: &str) -> (v: Vec<char>)
    ensures
        v@ == s@,
{
    let mut v: Vec<char> = Vec::new();
    for c in it: s.chars()
        invariant
            v@ == it.seq().take(it.index() as int),
            it.seq() == s@,
    {
        v.push(c);
    }
    v
}

/// The pieces of `s` that newline characters (`'\n'`) separate, in order.
/// A text without a newline is a single piece; a text that ends in a newline
/// has an empty last piece.
pub open spec fn split_lines(s: Seq<char>) -> Seq<Seq<char>>
    decreases s.len(),
{
    if s.len() == 0 {
        seq![Seq::<char>::empty()]
    } else {
        let r = split_lines(s.drop_last());
        if s.last() == '\n' {
            r.push(Seq::<char>::empty())
        } else {
            r.update(r.len() - 1, r.last().push(s.last()))
        }
    }
}

/// The maximal runs of non-whitespace characters of `s`, in order: what
/// `str::split_whitespace` yields.
pub open spec fn tokens(s: Seq<char>) -> Seq<Seq<char>>
    decreases s.len(),
{
    if s.len() == 0 {
        Seq::<Seq<char>>::empty()
    } else {
        let r = tokens(s.drop_last());
        let c = s.last();
        if is_ws(c) {
            r
        } else if s.len() >= 2 && !is_ws(s[s.len() - 2]) {
            r.update(r.len() - 1, r.last().push(c))
        } else {
            r.push(seq![c])
        }
    }
}

/// A line is ignored when it holds no token (it is blank once trimmed) or
/// when its first non-whitespace character is `#` (a comment).
pub open spec fn line_ignored(line: Seq<char>) -> bool {
    tokens(line).len() == 0 || tokens(line)[0][0] == '#'
}

/// The edges that the lines `ls` name, in order: the first two tokens of each
/// line that is not ignored and holds at least two tokens.
pub open spec fn edges_of_lines(ls: Seq<Seq<char>>) -> Seq<(Seq<char>, Seq<char>)>
    decreases ls.len(),
{
    if ls.len() == 0 {
        Seq::empty()
    } else {
        let r = edges_of_lines(ls.drop_last());
        let t = tokens(ls.last());
        if !line_ignored(ls.last()) && t.len() >= 2 {
            r.push((t[0], t[1]))
        } else {
            r
        }
    }
}

/// The edge list of an edge-list text: one `(u, v)` per line that is not
/// ignored and holds two labels; further tokens on a line are ignored, and so
/// is a line with a single label.
pub open spec fn edge_list(s: Seq<char>) -> Seq<(Seq<char>, Seq<char>)> {
    edges_of_lines(split_lines(s))
}

/// The node pairs of a pairs text, or the first line that is not ignored and
/// holds fewer than two labels. Such a line, trimmed, is its one token.
pub open spec fn pairs_of_lines(ls: Seq<Seq<char>>) -> Result<Seq<(Seq<char>, Seq<char>)>, Seq<char>>
    decreases ls.len(),
{
    if ls.len() == 0 {
        Ok(Seq::empty())
    } else {
        match pairs_of_lines(ls.drop_last()) {
            Err(e) => Err(e),
            Ok(r) => {
                let t = tokens(ls.last());
                if line_ignored(ls.last()) {
                    Ok(r)
                } else if t.len() == 1 {
                    Err(t[0])
                } else {
                    Ok(r.push((t[0], t[1])))
                }
            },
        }
    }
}

/// The pairs that a pairs text names, or its first malformed line.
pub open spec fn pair_list(s: Seq<char>) -> Result<Seq<(Seq<char>, Seq<char>)>, Seq<char>> {
    pairs_of_lines(split_lines(s))
}

pub proof fn lemma_lines_nonempty(s: Seq<char>)
    ensures
        split_lines(s).len() >= 1,
{
    lemma_split_lines_nonempty(s);
}

proof fn lemma_split_lines_nonempty(s: Seq<char>)
    ensures
        split_lines(s).len() >= 1,
    decreases s.len(),
{
    if s.len() > 0 {
        lemma_split_lines_nonempty(s.drop_last());
    }
}

/// Extending a text whose last piece is empty by newline-free characters
/// makes those characters its last piece.
proof fn lemma_split_piece(s: Seq<char>, start: int, end: int)
    requires
        0 <= start <= end <= s.len(),
        split_lines(s.take(start)).last() == Seq::<char>::empty(),
        forall|k: int| start <= k < end ==> s[k] != '\n',
    ensures
        split_lines(s.take(end)) == split_lines(s.take(start)).drop_last().push(
            s.subrange(start, end),
        ),
    decreases end - start,
{
    lemma_split_lines_nonempty(s.take(start));
    if end == start {
        assert(s.subrange(start, end) =~= Seq::<char>::empty());
        assert(split_lines(s.take(start)).drop_last().push(Seq::<char>::empty())
            =~= split_lines(s.take(start)));
    } else {
        lemma_split_piece(s, start, end - 1);
        let p = s.take(end);
        assert(p.drop_last() =~= s.take(end - 1));
        assert(p.last() == s[end - 1]);
        assert(s.subrange(start, end - 1).push(s[end - 1]) =~= s.subrange(start, end));
        let x = split_lines(s.take(start)).drop_last();
        assert(x.push(s.subrange(start, end - 1)).update(
            x.len() as int,
            s.subrange(start, end),
        ) =~= x.push(s.subrange(start, end)));
    }
}

proof fn lemma_split_newline(s: Seq<char>, e: int)
    requires
        0 <= e < s.len(),
        s[e] == '\n',
    ensures
        split_lines(s.take(e + 1)) == split_lines(s.take(e)).push(Seq::<char>::empty()),
{
    assert(s.take(e + 1).drop_last() =~= s.take(e));
}

pub proof fn lemma_tokens_nonempty(s: Seq<char>)
    requires
        s.len() > 0,
        !is_ws(s.last()),
    ensures
        tokens(s).len() >= 1,
{
    lemma_tokens_nonempty_when_in_token(s);
}

proof fn lemma_tokens_nonempty_when_in_token(s: Seq<char>)
    requires
        s.len() > 0,
        !is_ws(s.last()),
    ensures
        tokens(s).len() >= 1,
    decreases s.len(),
{
    if s.len() >= 2 && !is_ws(s[s.len() - 2]) {
        let p = s.drop_last();
        assert(p.last() == s[s.len() - 2]);
        lemma_tokens_nonempty_when_in_token(p);
    }
}

/// The first tokens of one line of a text.
pub struct LineScan {
    /// Index of the newline that ends the line, or the text's length.
    pub end: usize,
    /// The number of tokens on the line, counted up to three.
    pub count: usize,
    /// The first token, where there is one.
    pub first: Vec<char>,
    /// The second token, where there is one.
    pub second: Vec<char>,
}

/// Reads the line of `cs` that begins at `start`.
pub fn scan_line(cs: &Vec<char>, start: usize) -> (r: LineScan)
    requires
        start <= cs.len(),
    ensures
        start <= r.end <= cs.len(),
        r.end == cs.len() || cs[r.end as int] == '\n',
        forall|k: int| start <= k < r.end ==> cs[k] != '\n',
        ({
            let t = tokens(cs@.subrange(start as int, r.end as int));
            &&& r.count as int == if t.len() < 3 { t.len() as int } else { 3 }
            &&& r.count >= 1 ==> r.first@ == t[0] && r.first@.len() > 0
            &&& r.count >= 2 ==> r.second@ == t[1]
        }),
{
    let mut i: usize = start;
    let mut count: usize = 0;
    let mut in_token = false;
    let mut first: Vec<char> = Vec::new();
    let mut second: Vec<char> = Vec::new();
    assert(cs@.subrange(start as int, start as int) =~= Seq::<char>::empty());
    while i < cs.len() && cs[i] != '\n'
        invariant
            start <= i <= cs.len(),
            forall|k: int| start <= k < i ==> cs[k] != '\n',
            in_token == (i > start && !is_ws(cs[i - 1])),
            ({
                let t = tokens(cs@.subrange(start as int, i as int));
                &&& count as int == if t.len() < 3 { t.len() as int } else { 3 }
                &&& count >= 1 ==> first@ == t[0] && first@.len() > 0
                &&& count >= 2 ==> second@ == t[1]
                &&& count == 0 ==> first@.len() == 0
                &&& count <= 1 ==> second@.len() == 0
            }),
        decreases cs.len() - i,
    {
        let c = cs[i];
        let ghost p = cs@.subrange(start as int, i as int);
        let ghost q = cs@.subrange(start as int, i + 1);
        proof {
            assert(q.drop_last() =~= p);
            assert(q.last() == c);
            if i > start {
                assert(q[q.len() - 2] == cs[i - 1]);
                if in_token {
                    lemma_tokens_nonempty_when_in_token(p);
                }
            }
        }
        let ghost t = tokens(p);
        if is_whitespace(c) {
            in_token = false;
            assert(tokens(q) == t);
        } else if in_token {
            proof {
                assert(tokens(q) == t.update(t.len() - 1, t.last().push(c)));
            }
            if count == 1 {
                first.push(c);
                assert(tokens(q)[0] =~= first@);
            } else if count == 2 {
                second.push(c);
                assert(tokens(q)[1] =~= second@);
            }
        } else {
            proof {
                assert(tokens(q) == t.push(seq![c]));
            }
            if count == 0 {
                first.push(c);
                assert(tokens(q)[0] =~= first@);
            } else if count == 1 {
                second.push(c);
                assert(tokens(q)[1] =~= second@);
            }
            if count < 3 {
                count = count + 1;
            }
            in_token = true;
        }
        i = i + 1;
    }
    LineScan { end: i, count, first, second }
}


/// `String::push`: appends the character `c` to the end of `s`.
#[verifier::external_body]
fn push_char(s: &mut String, c: char)
    ensures
        final(s)@ == old(s)@.push(c),
{
    s.push(c)
}

/// The string whose characters are `cs`.
pub fn string_of(cs: &Vec<char>) -> (s: String)
    ensures
        s@ == cs@,
{
    let mut s = String::new();
    for i in 0..cs.len()
        invariant
            s@ == cs@.take(i as int),
    {
        push_char(&mut s, cs[i]);
        assert(cs@.take(i as int).push(cs[i as int]) =~= cs@.take(i + 1));
    }
    assert(cs@.take(cs.len() as int) =~= cs@);
    s
}

/// The edges that the edge-list text `cs` names, each as its two labels'
/// characters.
pub fn edge_tokens(cs: &Vec<char>) -> (r: Vec<(Vec<char>, Vec<char>)>)
    ensures
        r@.len() == edge_list(cs@).len(),
        forall|k: int|
            0 <= k < r@.len() ==> (#[trigger] r@[k]).0@ == edge_list(cs@)[k].0 && r@[k].1@
                == edge_list(cs@)[k].1,
{
    let mut r: Vec<(Vec<char>, Vec<char>)> = Vec::new();
    let mut pos: usize = 0;
    assert(cs@.take(0) =~= Seq::<char>::empty());
    loop
        invariant
            pos <= cs.len(),
            split_lines(cs@.take(pos as int)).last() == Seq::<char>::empty(),
            r@.len() == edges_of_lines(split_lines(cs@.take(pos as int)).drop_last()).len(),
            forall|k: int|
                0 <= k < r@.len() ==> (#[trigger] r@[k]).0@ == edges_of_lines(
                    split_lines(cs@.take(pos as int)).drop_last(),
                )[k].0 && r@[k].1@ == edges_of_lines(
                    split_lines(cs@.take(pos as int)).drop_last(),
                )[k].1,
        decreases cs.len() - pos,
    {
        let ghost before = split_lines(cs@.take(pos as int)).drop_last();
        let ghost old_r = r@;
        let sc = scan_line(cs, pos);
        let ghost piece = cs@.subrange(pos as int, sc.end as int);
        proof {
            lemma_split_piece(cs@, pos as int, sc.end as int);
        }
        let ghost after = split_lines(cs@.take(sc.end as int));
        assert(after == before.push(piece));
        assert(after.drop_last() =~= before);
        assert(after.last() == piece);
        if sc.count >= 2 && sc.first[0] != '#' {
            r.push((sc.first, sc.second));
        }
        assert(r@.len() == edges_of_lines(after).len());
        assert forall|k: int| 0 <= k < r@.len() implies (#[trigger] r@[k]).0@ == edges_of_lines(
            after,
        )[k].0 && r@[k].1@ == edges_of_lines(after)[k].1 by {
            if k < old_r.len() {
                assert(r@[k] == old_r[k]);
            }
        }
        if sc.end == cs.len() {
            assert(cs@.take(sc.end as int) =~= cs@);
            return r;
        }
        proof {
            lemma_split_newline(cs@, sc.end as int);
        }
        assert(split_lines(cs@.take(sc.end + 1)).drop_last() =~= after);
        pos = sc.end + 1;
    }
}


/// Reads a pairs text: one `u v` pair per line; blank lines and lines whose
/// first non-whitespace character is `#` are skipped, tokens after the second
/// are ignored. A line with a single token is refused: the error holds that
/// line, trimmed.
pub fn parse_pairs(text: &str) -> (r: Result<Vec<(String, String)>, String>)
    ensures
        match (r, pair_list(text@)) {
            (Ok(v), Ok(ps)) => v@.len() == ps.len() && forall|k: int|
                0 <= k < v@.len() ==> (#[trigger] v@[k]).0@ == ps[k].0 && v@[k].1@ == ps[k].1,
            (Err(e), Err(line)) => e@ == line,
            _ => false,
        },
{
    let cs = chars_of(text);
    let mut r: Vec<(String, String)> = Vec::new();
    let mut pos: usize = 0;
    assert(cs@.take(0) =~= Seq::<char>::empty());
    loop
        invariant
            pos <= cs.len(),
            cs@ == text@,
            split_lines(cs@.take(pos as int)).last() == Seq::<char>::empty(),
            pairs_of_lines(split_lines(cs@.take(pos as int)).drop_last()) is Ok,
            r@.len() == pairs_of_lines(split_lines(cs@.take(pos as int)).drop_last())->Ok_0.len(),
            forall|k: int|
                0 <= k < r@.len() ==> (#[trigger] r@[k]).0@ == pairs_of_lines(
                    split_lines(cs@.take(pos as int)).drop_last(),
                )->Ok_0[k].0 && r@[k].1@ == pairs_of_lines(
                    split_lines(cs@.take(pos as int)).drop_last(),
                )->Ok_0[k].1,
        decreases cs.len() - pos,
    {
        let ghost before = split_lines(cs@.take(pos as int)).drop_last();
        let ghost old_r = r@;
        let sc = scan_line(&cs, pos);
        let ghost piece = cs@.subrange(pos as int, sc.end as int);
        proof {
            lemma_split_piece(cs@, pos as int, sc.end as int);
        }
        let ghost after = split_lines(cs@.take(sc.end as int));
        assert(after == before.push(piece));
        assert(after.drop_last() =~= before);
        assert(after.last() == piece);
        if sc.count == 0 || sc.first[0] == '#' {
        } else if sc.count == 1 {
            if sc.end == cs.len() {
                assert(cs@.take(sc.end as int) =~= cs@);
            }
            proof {
                lemma_pairs_error_persists(cs@, sc.end as int);
            }
            return Err(string_of(&sc.first));
        } else {
            let a = string_of(&sc.first);
            let b = string_of(&sc.second);
            r.push((a, b));
        }
        assert forall|k: int| 0 <= k < r@.len() implies (#[trigger] r@[k]).0@ == pairs_of_lines(
            after,
        )->Ok_0[k].0 && r@[k].1@ == pairs_of_lines(after)->Ok_0[k].1 by {
            if k < old_r.len() {
                assert(r@[k] == old_r[k]);
            }
        }
        if sc.end == cs.len() {
            assert(cs@.take(sc.end as int) =~= cs@);
            return Ok(r);
        }
        proof {
            lemma_split_newline(cs@, sc.end as int);
        }
        assert(split_lines(cs@.take(sc.end + 1)).drop_last() =~= after);
        pos = sc.end + 1;
    }
}

/// Once a prefix of the lines holds a malformed line, so do all the lines.
proof fn lemma_pairs_error_persists(s: Seq<char>, e: int)
    requires
        0 <= e <= s.len(),
        e == s.len() || s[e] == '\n',
        pairs_of_lines(split_lines(s.take(e))) is Err,
    ensures
        pairs_of_lines(split_lines(s)) == pairs_of_lines(split_lines(s.take(e))),
    decreases s.len() - e,
{
    if e < s.len() {
        lemma_split_newline(s, e);
        assert(split_lines(s.take(e + 1)).drop_last() =~= split_lines(s.take(e)));
        lemma_pairs_error_extends(s, e + 1);
    } else {
        assert(s.take(e) =~= s);
    }
}

proof fn lemma_pairs_error_extends(s: Seq<char>, e: int)
    requires
        0 <= e <= s.len(),
        pairs_of_lines(split_lines(s.take(e)).drop_last()) is Err,
    ensures
        pairs_of_lines(split_lines(s)) == pairs_of_lines(split_lines(s.take(e)).drop_last()),
    decreases s.len() - e,
{
    lemma_split_lines_nonempty(s.take(e));
    if e == s.len() {
        assert(s.take(e) =~= s);
    } else {
        let p = s.take(e + 1);
        assert(p.drop_last() =~= s.take(e));
        lemma_split_lines_nonempty(s.take(e + 1));
        let a = split_lines(s.take(e));
        let b = split_lines(s.take(e + 1));
        if s[e] == '\n' {
            assert(b.drop_last() =~= a);
        } else {
            assert(b.drop_last() =~= a.drop_last());
        }
        lemma_pairs_error_extends(s, e + 1);
    }
}

} // verus!
