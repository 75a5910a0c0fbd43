//! Path patterns: literal text with `?`, `*`, `**` and `{name}` in it.
//!
//! `?` stands for one character of a path segment, `*` for any number of them, `**` for any text
//! at all, and `{name}` for a non-empty run of characters within a segment, which the match binds
//! to `name`.
use crate::text::{
    before_first, chars_of, lemma_before_first, lemma_before_first_ends, starts_with, str_eq,
};
use vstd::hash_map::StringHashMap;
use vstd::prelude::*;
use vstd::string::*;

verus! {

// ----- the grammar -----

/// One element of a pattern.
pub enum Token {
    Literal(char),
    AnyChar,
    Star,
    DoubleStar,
    Variable(Seq<char>),
}

/// The element that stands for the character `c` itself.
pub open spec fn literal(c: char) -> Token {
    Token::Literal(c)
}

/// Whether `p` holds one of the characters that make it a pattern and no plain prefix.
pub open spec fn is_pattern(p: Seq<char>) -> bool {
    p.contains('{') || p.contains('*') || p.contains('?')
}

/// Whether `c` may stand in the name of a variable: an ASCII letter or digit, or `_`.
pub open spec fn is_word_char(c: char) -> bool {
    'a' <= c <= 'z' || 'A' <= c <= 'Z' || '0' <= c <= '9' || c == '_'
}

/// Whether `name` can name a variable.
pub open spec fn is_name(name: Seq<char>) -> bool {
    &&& name.len() > 0
    &&& forall|i: int| 0 <= i < name.len() ==> is_word_char(#[trigger] name[i])
}

/// The elements `done`, followed by those of `rest` where there are any.
pub open spec fn followed_by(done: Seq<Token>, rest: Option<Seq<Token>>) -> Option<Seq<Token>> {
    match rest {
        Some(ts) => Some(done + ts),
        None => None,
    }
}

/// The elements that `p` is made of, read from left to right; none where a `{` is not closed or
/// does not enclose a name.
pub open spec fn parse(p: Seq<char>) -> Option<Seq<Token>>
    decreases p.len(),
{
    if p.len() == 0 {
        Some(Seq::empty())
    } else if p[0] == '{' {
        let name = before_first(p.drop_first(), '}');
        if name.len() + 1 < p.len() && is_name(name) {
            followed_by(seq![Token::Variable(name)], parse(p.skip(name.len() as int + 2)))
        } else {
            None
        }
    } else if p[0] == '*' && p.len() > 1 && p[1] == '*' {
        followed_by(seq![Token::DoubleStar], parse(p.skip(2)))
    } else if p[0] == '*' {
        followed_by(seq![Token::Star], parse(p.drop_first()))
    } else if p[0] == '?' {
        followed_by(seq![Token::AnyChar], parse(p.drop_first()))
    } else {
        followed_by(seq![literal(p[0])], parse(p.drop_first()))
    }
}

/// No two variables have the same name.
pub open spec fn names_distinct(ts: Seq<Token>) -> bool {
    forall|i: int, j: int|
        0 <= i < j < ts.len() && (#[trigger] ts[i]) is Variable ==> ts[i] != #[trigger] ts[j]
}

/// The elements of the pattern `p`, where it is well formed and names no variable twice.
pub open spec fn tokens_of(p: Seq<char>) -> Option<Seq<Token>> {
    match parse(p) {
        Some(ts) => if names_distinct(ts) {
            Some(ts)
        } else {
            None
        },
        None => None,
    }
}

// ----- what a pattern matches -----

/// `piece` lies within one segment of a path.
pub open spec fn within_segment(piece: Seq<char>) -> bool {
    !piece.contains('/')
}

/// The element `t` stands for the text `piece`.
pub open spec fn admits(t: Token, piece: Seq<char>) -> bool {
    match t {
        Token::Literal(c) => piece == seq![c],
        Token::AnyChar => piece.len() == 1 && within_segment(piece),
        Token::Star => within_segment(piece),
        Token::DoubleStar => true,
        Token::Variable(_) => piece.len() >= 1 && within_segment(piece),
    }
}

/// The pieces in a row.
pub open spec fn concat(pieces: Seq<Seq<char>>) -> Seq<char>
    decreases pieces.len(),
{
    if pieces.len() == 0 {
        Seq::empty()
    } else {
        pieces[0] + concat(pieces.drop_first())
    }
}

/// `pieces` cuts `path` up so that each element of the pattern stands for its piece.
pub open spec fn covers(ts: Seq<Token>, path: Seq<char>, pieces: Seq<Seq<char>>) -> bool {
    &&& pieces.len() == ts.len()
    &&& concat(pieces) == path
    &&& forall|i: int| 0 <= i < ts.len() ==> admits(#[trigger] ts[i], pieces[i])
}

/// The elements `ts` match the whole of `path`.
pub open spec fn tokens_match(ts: Seq<Token>, path: Seq<char>) -> bool {
    exists|pieces: Seq<Seq<char>>| covers(ts, path, pieces)
}

/// The pattern `p` is well formed and matches the whole of `path`.
pub open spec fn pattern_matches(p: Seq<char>, path: Seq<char>) -> bool {
    tokens_of(p) matches Some(ts) && tokens_match(ts, path)
}

/// `a` and `b` begin with the same pieces, and the first in which they differ is longer in `a`.
pub open spec fn longer_first(a: Seq<Seq<char>>, b: Seq<Seq<char>>) -> bool {
    exists|k: int|
        0 <= k < a.len() && k < b.len() && a.take(k) == b.take(k) && #[trigger] a[k].len()
            > b[k].len()
}

/// `pieces` cuts `path` up greedily: from left to right, each element takes as much as it can.
pub open spec fn covers_greedily(ts: Seq<Token>, path: Seq<char>, pieces: Seq<Seq<char>>) -> bool {
    &&& covers(ts, path, pieces)
    &&& forall|other: Seq<Seq<char>>| covers(ts, path, other) ==> !longer_first(other, pieces)
}

/// `vars` holds each variable of the pattern, with the piece it stands for, and nothing else.
pub open spec fn binds(
    vars: Map<Seq<char>, String>,
    ts: Seq<Token>,
    pieces: Seq<Seq<char>>,
) -> bool {
    &&& forall|name: Seq<char>|
        #![trigger vars.contains_key(name)]
        vars.contains_key(name) <==> ts.contains(Token::Variable(name))
    &&& forall|i: int|
        0 <= i < ts.len() ==> (#[trigger] ts[i] matches Token::Variable(name) ==> vars[name]@
            == pieces[i])
}

// ----- reachability -----

/// The elements from the `i`-th on match the text of `path` from `j` on.
pub closed spec fn reach(ts: Seq<Token>, path: Seq<char>, i: int, j: int) -> bool
    decreases ts.len() - i, path.len() - j,
    when 0 <= i <= ts.len() && 0 <= j <= path.len()
{
    if i == ts.len() {
        j == path.len()
    } else {
        match ts[i] {
            Token::Literal(c) => j < path.len() && path[j] == c && reach(ts, path, i + 1, j + 1),
            Token::AnyChar => j < path.len() && path[j] != '/' && reach(ts, path, i + 1, j + 1),
            Token::Star => reach(ts, path, i + 1, j) || (j < path.len() && path[j] != '/' && reach(
                ts,
                path,
                i,
                j + 1,
            )),
            Token::DoubleStar => reach(ts, path, i + 1, j) || (j < path.len() && reach(
                ts,
                path,
                i,
                j + 1,
            )),
            Token::Variable(_) => j < path.len() && path[j] != '/' && (reach(
                ts,
                path,
                i + 1,
                j + 1,
            ) || reach(ts, path, i, j + 1)),
        }
    }
}

proof fn lemma_concat_cons(head: Seq<char>, rest: Seq<Seq<char>>)
    ensures
        concat(seq![head] + rest) == head + concat(rest),
{
    assert((seq![head] + rest).drop_first() =~= rest);
}

proof fn lemma_within_cons(c: char, piece: Seq<char>)
    ensures
        within_segment(seq![c] + piece) <==> c != '/' && within_segment(piece),
{
    let whole = seq![c] + piece;
    if c == '/' {
        assert(whole[0] == '/');
    }
    if piece.contains('/') {
        let k = choose|k: int| 0 <= k < piece.len() && piece[k] == '/';
        assert(whole[k + 1] == '/');
    }
    if whole.contains('/') {
        let k = choose|k: int| 0 <= k < whole.len() && whole[k] == '/';
        if k > 0 {
            assert(piece[k - 1] == '/');
        }
    }
}

/// A cover of the rest, with `head` in front of it for the element in front.
proof fn lemma_cover_cons(
    ts: Seq<Token>,
    path: Seq<char>,
    i: int,
    j: int,
    e: int,
    rest: Seq<Seq<char>>,
)
    requires
        0 <= i < ts.len(),
        0 <= j <= e <= path.len(),
        admits(ts[i], path.subrange(j, e)),
        covers(ts.skip(i + 1), path.skip(e), rest),
    ensures
        covers(ts.skip(i), path.skip(j), seq![path.subrange(j, e)] + rest),
{
    let pieces = seq![path.subrange(j, e)] + rest;
    lemma_concat_cons(path.subrange(j, e), rest);
    assert(path.subrange(j, e) + path.skip(e) =~= path.skip(j));
    assert forall|k: int| 0 <= k < ts.skip(i).len() implies admits(
        #[trigger] ts.skip(i)[k],
        pieces[k],
    ) by {
        if k > 0 {
            assert(ts.skip(i)[k] == ts.skip(i + 1)[k - 1]);
        }
    }
}

/// A cover from one character further on, with that character added to its first piece.
proof fn lemma_cover_grow(
    ts: Seq<Token>,
    path: Seq<char>,
    i: int,
    j: int,
    pieces: Seq<Seq<char>>,
)
    requires
        0 <= i < ts.len(),
        0 <= j < path.len(),
        covers(ts.skip(i), path.skip(j + 1), pieces),
        admits(ts[i], seq![path[j]] + pieces[0]),
    ensures
        covers(ts.skip(i), path.skip(j), pieces.update(0, seq![path[j]] + pieces[0])),
{
    let grown = pieces.update(0, seq![path[j]] + pieces[0]);
    assert(grown.drop_first() =~= pieces.drop_first());
    assert(seq![path[j]] + pieces[0] + concat(pieces.drop_first()) =~= seq![path[j]] + (pieces[0]
        + concat(pieces.drop_first())));
    assert(seq![path[j]] + path.skip(j + 1) =~= path.skip(j));
    assert forall|k: int| 0 <= k < ts.skip(i).len() implies admits(
        #[trigger] ts.skip(i)[k],
        grown[k],
    ) by {
        if k > 0 {
            assert(grown[k] == pieces[k]);
        }
    }
}

proof fn lemma_reach_gives_cover(ts: Seq<Token>, path: Seq<char>, i: int, j: int) -> (pieces: Seq<
    Seq<char>,
>)
    requires
        0 <= i <= ts.len(),
        0 <= j <= path.len(),
        reach(ts, path, i, j),
    ensures
        covers(ts.skip(i), path.skip(j), pieces),
    decreases ts.len() - i, path.len() - j,
{
    if i == ts.len() {
        let none = Seq::<Seq<char>>::empty();
        assert(path.skip(j) =~= Seq::<char>::empty());
        assert(covers(ts.skip(i), path.skip(j), none));
        none
    } else {
        let t = ts[i];
        let stays = match t {
            Token::Star | Token::DoubleStar => !reach(ts, path, i + 1, j),
            Token::Variable(_) => !reach(ts, path, i + 1, j + 1),
            _ => false,
        };
        if stays {
            let rest = lemma_reach_gives_cover(ts, path, i, j + 1);
            assert(ts.skip(i)[0] == t);
            assert(admits(ts.skip(i)[0], rest[0]));
            lemma_within_cons(path[j], rest[0]);
            lemma_cover_grow(ts, path, i, j, rest);
            rest.update(0, seq![path[j]] + rest[0])
        } else {
            let e = match t {
                Token::Star | Token::DoubleStar => j,
                _ => j + 1,
            };
            let rest = lemma_reach_gives_cover(ts, path, i + 1, e);
            let head = path.subrange(j, e);
            if e == j {
                assert(head =~= Seq::<char>::empty());
            } else {
                assert(head =~= seq![path[j]]);
                lemma_within_cons(path[j], Seq::<char>::empty());
                assert(seq![path[j]] + Seq::<char>::empty() =~= head);
            }
            lemma_cover_cons(ts, path, i, j, e, rest);
            seq![head] + rest
        }
    }
}

/// A piece of `path` that the `i`-th element admits, before a rest that can be reached.
proof fn lemma_reach_by_piece(ts: Seq<Token>, path: Seq<char>, i: int, j: int, e: int)
    requires
        0 <= i < ts.len(),
        0 <= j <= e <= path.len(),
        admits(ts[i], path.subrange(j, e)),
        reach(ts, path, i + 1, e),
    ensures
        reach(ts, path, i, j),
    decreases e - j,
{
    let piece = path.subrange(j, e);
    if e > j {
        let tail = path.subrange(j + 1, e);
        assert(piece =~= seq![path[j]] + tail);
        lemma_within_cons(path[j], tail);
        match ts[i] {
            Token::Literal(c) => {
                assert(piece.len() == 1);
                assert(piece[0] == c);
            },
            Token::AnyChar => {},
            Token::Variable(_) => {
                if e > j + 1 {
                    lemma_reach_by_piece(ts, path, i, j + 1, e);
                }
            },
            _ => {
                lemma_reach_by_piece(ts, path, i, j + 1, e);
            },
        }
    } else {
        assert(piece.len() == 0);
        assert(ts[i] matches Token::Literal(c) ==> seq![c].len() == 1);
    }
}

proof fn lemma_cover_gives_reach(
    ts: Seq<Token>,
    path: Seq<char>,
    i: int,
    j: int,
    pieces: Seq<Seq<char>>,
)
    requires
        0 <= i <= ts.len(),
        0 <= j <= path.len(),
        covers(ts.skip(i), path.skip(j), pieces),
    ensures
        reach(ts, path, i, j),
    decreases ts.len() - i,
{
    if i == ts.len() {
        assert(path.skip(j).len() == 0);
    } else {
        let e = j + pieces[0].len();
        let rest = pieces.drop_first();
        let whole = path.skip(j);
        assert(whole == pieces[0] + concat(rest));
        assert(pieces[0] =~= whole.take(pieces[0].len() as int));
        assert(path.subrange(j, e) =~= pieces[0]);
        assert(path.skip(e) =~= concat(rest)) by {
            assert(path.skip(e) =~= whole.skip(pieces[0].len() as int));
            assert(whole.skip(pieces[0].len() as int) =~= concat(rest));
        }
        assert(ts.skip(i)[0] == ts[i]);
        assert forall|k: int| 0 <= k < ts.skip(i + 1).len() implies admits(
            #[trigger] ts.skip(i + 1)[k],
            rest[k],
        ) by {
            assert(ts.skip(i)[k + 1] == ts.skip(i + 1)[k]);
        }
        lemma_cover_gives_reach(ts, path, i + 1, e, rest);
        lemma_reach_by_piece(ts, path, i, j, e);
    }
}

proof fn lemma_reach_iff_match(ts: Seq<Token>, path: Seq<char>)
    ensures
        reach(ts, path, 0, 0) <==> tokens_match(ts, path),
{
    assert(ts.skip(0) =~= ts);
    assert(path.skip(0) =~= path);
    if reach(ts, path, 0, 0) {
        let pieces = lemma_reach_gives_cover(ts, path, 0, 0);
        assert(covers(ts, path, pieces));
    }
    if tokens_match(ts, path) {
        let pieces = choose|pieces: Seq<Seq<char>>| covers(ts, path, pieces);
        lemma_cover_gives_reach(ts, path, 0, 0, pieces);
    }
}

// ----- greedy cuts -----

/// The pieces of `path` between consecutive positions of `cuts`.
spec fn pieces_at(path: Seq<char>, cuts: Seq<int>) -> Seq<Seq<char>> {
    Seq::new((cuts.len() - 1) as nat, |k: int| path.subrange(cuts[k], cuts[k + 1]))
}

/// `cuts` begins at the front of `path`, and each of the first elements takes the longest piece
/// that leaves a rest which can be matched.
spec fn longest_cuts(ts: Seq<Token>, path: Seq<char>, cuts: Seq<int>) -> bool {
    &&& 1 <= cuts.len() <= ts.len() + 1
    &&& cuts[0] == 0
    &&& forall|k: int|
        0 <= k < cuts.len() - 1 ==> {
            &&& 0 <= #[trigger] cuts[k] <= cuts[k + 1] <= path.len()
            &&& admits(ts[k], path.subrange(cuts[k], cuts[k + 1]))
            &&& forall|e: int|
                #![trigger path.subrange(cuts[k], e)]
                cuts[k + 1] < e <= path.len() && admits(ts[k], path.subrange(cuts[k], e))
                    ==> !reach(ts, path, k + 1, e)
        }
}

proof fn lemma_concat_push(pieces: Seq<Seq<char>>, last: Seq<char>)
    ensures
        concat(pieces.push(last)) == concat(pieces) + last,
    decreases pieces.len(),
{
    let all = pieces.push(last);
    if pieces.len() == 0 {
        assert(all.drop_first() =~= Seq::<Seq<char>>::empty());
        assert(concat(all.drop_first()) =~= Seq::<char>::empty());
        assert(concat(all) =~= concat(pieces) + last);
    } else {
        lemma_concat_push(pieces.drop_first(), last);
        assert(all.drop_first() =~= pieces.drop_first().push(last));
        assert(concat(all) =~= concat(pieces) + last);
    }
}

/// The first `k` pieces make up the text before the `k`-th cut.
proof fn lemma_cuts_concat(ts: Seq<Token>, path: Seq<char>, cuts: Seq<int>, k: int)
    requires
        longest_cuts(ts, path, cuts),
        0 <= k < cuts.len(),
    ensures
        0 <= cuts[k] <= path.len(),
        concat(pieces_at(path, cuts).take(k)) == path.take(cuts[k]),
    decreases k,
{
    let pieces = pieces_at(path, cuts);
    if k == 0 {
        assert(pieces.take(0) =~= Seq::<Seq<char>>::empty());
        assert(path.take(0) =~= Seq::<char>::empty());
    } else {
        lemma_cuts_concat(ts, path, cuts, k - 1);
        assert(0 <= cuts[k - 1] <= cuts[k - 1 + 1] <= path.len());
        lemma_concat_push(pieces.take(k - 1), pieces[k - 1]);
        assert(pieces.take(k) =~= pieces.take(k - 1).push(pieces[k - 1]));
        assert(path.take(cuts[k - 1]) + path.subrange(cuts[k - 1], cuts[k]) =~= path.take(cuts[k]));
    }
}

/// What a cover says of its `k`-th piece and of what follows it.
proof fn lemma_cover_at(ts: Seq<Token>, path: Seq<char>, pieces: Seq<Seq<char>>, k: int)
    requires
        covers(ts, path, pieces),
        0 <= k < ts.len(),
    ensures
        ({
            let from = concat(pieces.take(k)).len() as int;
            let to = from + pieces[k].len();
            &&& 0 <= from <= to <= path.len()
            &&& pieces[k] == path.subrange(from, to)
            &&& covers(ts.skip(k + 1), path.skip(to), pieces.skip(k + 1))
        }),
{
    lemma_concat_split(pieces, k);
    lemma_concat_split(pieces.skip(k), 1);
    let front = concat(pieces.take(k));
    let rest = pieces.skip(k);
    assert(rest.take(1) =~= seq![pieces[k]]);
    assert(rest.skip(1) =~= pieces.skip(k + 1));
    assert(concat(rest.take(1)) =~= pieces[k]) by {
        assert(rest.take(1).drop_first() =~= Seq::<Seq<char>>::empty());
        assert(concat(rest.take(1).drop_first()) =~= Seq::<char>::empty());
    }
    let back = concat(pieces.skip(k + 1));
    assert(path == front + (pieces[k] + back));
    let from = front.len() as int;
    let to = from + pieces[k].len();
    assert(pieces[k] =~= path.subrange(from, to));
    assert(path.skip(to) =~= back);
    assert forall|n: int| 0 <= n < ts.skip(k + 1).len() implies admits(
        #[trigger] ts.skip(k + 1)[n],
        pieces.skip(k + 1)[n],
    ) by {
        assert(admits(ts[k + 1 + n], pieces[k + 1 + n]));
    }
}

proof fn lemma_concat_split(pieces: Seq<Seq<char>>, k: int)
    requires
        0 <= k <= pieces.len(),
    ensures
        concat(pieces) == concat(pieces.take(k)) + concat(pieces.skip(k)),
    decreases k,
{
    if k == 0 {
        assert(pieces.take(0) =~= Seq::<Seq<char>>::empty());
        assert(pieces.skip(0) =~= pieces);
        assert(concat(pieces) =~= concat(pieces.take(0)) + concat(pieces.skip(0)));
    } else {
        lemma_concat_split(pieces.drop_first(), k - 1);
        assert(pieces.take(k).drop_first() =~= pieces.drop_first().take(k - 1));
        assert(pieces.skip(k) =~= pieces.drop_first().skip(k - 1));
        assert(concat(pieces) =~= concat(pieces.take(k)) + concat(pieces.skip(k)));
    }
}

proof fn lemma_longest_cuts_cover_greedily(ts: Seq<Token>, path: Seq<char>, cuts: Seq<int>)
    requires
        longest_cuts(ts, path, cuts),
        cuts.len() == ts.len() + 1,
        cuts[ts.len() as int] == path.len(),
    ensures
        covers_greedily(ts, path, pieces_at(path, cuts)),
{
    let pieces = pieces_at(path, cuts);
    lemma_cuts_concat(ts, path, cuts, ts.len() as int);
    assert(pieces.take(ts.len() as int) =~= pieces);
    assert(path.take(path.len() as int) =~= path);
    assert forall|i: int| 0 <= i < ts.len() implies admits(#[trigger] ts[i], pieces[i]) by {
        assert(0 <= cuts[i]);
    }
    assert forall|other: Seq<Seq<char>>| covers(ts, path, other) implies !longer_first(
        other,
        pieces,
    ) by {
        if longer_first(other, pieces) {
            let k = choose|k: int|
                0 <= k < other.len() && k < pieces.len() && other.take(k) == pieces.take(k)
                    && #[trigger] other[k].len() > pieces[k].len();
            lemma_cuts_concat(ts, path, cuts, k);
            lemma_cover_at(ts, path, other, k);
            let from = cuts[k];
            let to = from + other[k].len();
            assert(admits(ts[k], other[k]));
            lemma_cover_gives_reach(ts, path, k + 1, to, other.skip(k + 1));
            assert(0 <= cuts[k] <= cuts[k + 1]);
            assert(pieces[k].len() == cuts[k + 1] - cuts[k]);
            assert(admits(ts[k], path.subrange(cuts[k], to)));
        }
    }
}

/// There is one greedy cover at most.
pub proof fn lemma_greedy_cover_unique(
    ts: Seq<Token>,
    path: Seq<char>,
    a: Seq<Seq<char>>,
    b: Seq<Seq<char>>,
)
    requires
        covers_greedily(ts, path, a),
        covers_greedily(ts, path, b),
    ensures
        a == b,
{
    lemma_equal_front(ts, path, a, b, ts.len() as int);
    assert(a.take(ts.len() as int) =~= a);
    assert(b.take(ts.len() as int) =~= b);
}

proof fn lemma_equal_front(
    ts: Seq<Token>,
    path: Seq<char>,
    a: Seq<Seq<char>>,
    b: Seq<Seq<char>>,
    k: int,
)
    requires
        covers_greedily(ts, path, a),
        covers_greedily(ts, path, b),
        0 <= k <= ts.len(),
    ensures
        a.take(k) == b.take(k),
    decreases k,
{
    if k == 0 {
        assert(a.take(0) =~= b.take(0));
    } else {
        lemma_equal_front(ts, path, a, b, k - 1);
        lemma_cover_at(ts, path, a, k - 1);
        lemma_cover_at(ts, path, b, k - 1);
        assert(a[k - 1].len() == b[k - 1].len()) by {
            assert(!longer_first(a, b));
            assert(!longer_first(b, a));
        }
        assert(a.take(k) =~= a.take(k - 1).push(a[k - 1]));
        assert(b.take(k) =~= b.take(k - 1).push(b[k - 1]));
    }
}

// ----- compiled patterns -----

/// One element of a compiled pattern.
#[derive(Debug)]
enum PatternToken {
    Literal(char),
    AnyChar,
    Star,
    DoubleStar,
    Variable(String),
}

impl View for PatternToken {
    type V = Token;

    closed spec fn view(&self) -> Token {
        match self {
            PatternToken::Literal(c) => Token::Literal(*c),
            PatternToken::AnyChar => Token::AnyChar,
            PatternToken::Star => Token::Star,
            PatternToken::DoubleStar => Token::DoubleStar,
            PatternToken::Variable(name) => Token::Variable(name@),
        }
    }
}

spec fn token_views(tokens: Seq<PatternToken>) -> Seq<Token> {
    tokens.map_values(|t: PatternToken| t@)
}

/// The text is no well-formed pattern.
#[derive(Debug, Clone, Copy, PartialEq, Eq)]
pub struct PatternError;

/// A path pattern, read once and matched many times.
#[derive(Debug)]
pub struct RoutePattern {
    pattern: String,
    tokens: Vec<PatternToken>,
}

/// A compiled pattern stands for its text.
impl View for RoutePattern {
    type V = Seq<char>;

    closed spec fn view(&self) -> Seq<char> {
        self.pattern@
    }
}

fn name_is_valid(name: &Vec<char>, from: usize, to: usize) -> (b: bool)
    requires
        from <= to <= name@.len(),
    ensures
        b == is_name(name@.subrange(from as int, to as int)),
{
    let ghost s = name@.subrange(from as int, to as int);
    if from == to {
        return false;
    }
    let mut i: usize = from;
    while i < to
        invariant
            from <= i <= to <= name@.len(),
            from < to,
            s == name@.subrange(from as int, to as int),
            forall|k: int| 0 <= k < i - from ==> is_word_char(#[trigger] s[k]),
        decreases to - i,
    {
        let c = name[i];
        assert(s[i - from] == c);
        if !(('a' <= c && c <= 'z') || ('A' <= c && c <= 'Z') || ('0' <= c && c <= '9') || c
            == '_') {
            return false;
        }
        i = i + 1;
    }
    true
}

/// Reads the element of the pattern at `at`; the second part is where the next one begins.
fn read_token(pattern: &str, cs: &Vec<char>, at: usize) -> (r: Option<(PatternToken, usize)>)
    requires
        cs@ == pattern@,
        at < cs@.len(),
    ensures
        match r {
            Some((token, next)) => {
                &&& at < next <= cs@.len()
                &&& parse(pattern@.skip(at as int)) == followed_by(
                    seq![token@],
                    parse(pattern@.skip(next as int)),
                )
            },
            None => parse(pattern@.skip(at as int)) is None,
        },
{
    let len: usize = cs.len();
    let ghost rest = pattern@.skip(at as int);
    let c = cs[at];
    proof {
        assert(rest[0] == c);
        assert(rest.drop_first() =~= pattern@.skip(at + 1));
        assert(at + 1 < len ==> rest[1] == cs@[at + 1]);
    }
    if c == '{' {
        let mut end: usize = at + 1;
        while end < len && cs[end] != '}'
            invariant
                len == cs@.len(),
                at + 1 <= end <= len,
                forall|k: int| at + 1 <= k < end ==> cs@[k] != '}',
            decreases len - end,
        {
            end = end + 1;
        }
        proof {
            let inner = rest.drop_first();
            lemma_before_first(inner, '}', end - at - 1);
            assert(inner.take(end - at - 1) =~= cs@.subrange(at + 1, end as int));
        }
        if end == len || !name_is_valid(cs, at + 1, end) {
            return None;
        }
        assert(rest.skip(end - at - 1 + 2) =~= pattern@.skip(end + 1));
        let name = pattern.substring_char(at + 1, end).to_owned();
        Some((PatternToken::Variable(name), end + 1))
    } else if c == '*' && at + 1 < len && cs[at + 1] == '*' {
        assert(rest.skip(2) =~= pattern@.skip(at + 2));
        Some((PatternToken::DoubleStar, at + 2))
    } else if c == '*' {
        Some((PatternToken::Star, at + 1))
    } else if c == '?' {
        Some((PatternToken::AnyChar, at + 1))
    } else {
        Some((PatternToken::Literal(c), at + 1))
    }
}

fn parse_tokens(pattern: &str) -> (tokens: Option<Vec<PatternToken>>)
    ensures
        match tokens {
            Some(ts) => parse(pattern@) == Some(token_views(ts@)),
            None => parse(pattern@) is None,
        },
{
    let cs = chars_of(pattern);
    let len: usize = cs.len();
    let mut tokens: Vec<PatternToken> = Vec::new();
    let mut at: usize = 0;
    proof {
        assert(pattern@.skip(0) =~= pattern@);
        if let Some(ts) = parse(pattern@) {
            assert(token_views(tokens@) + ts =~= ts);
        }
    }
    while at < len
        invariant
            cs@ == pattern@,
            len == cs@.len(),
            at <= len,
            parse(pattern@) == followed_by(token_views(tokens@), parse(pattern@.skip(at as int))),
        decreases len - at,
    {
        match read_token(pattern, &cs, at) {
            Some((token, next)) => {
                proof {
                    let before = token_views(tokens@);
                    assert(token_views(tokens@.push(token)) =~= before.push(token@));
                    if let Some(ts) = parse(pattern@.skip(next as int)) {
                        assert(before + (seq![token@] + ts) =~= before.push(token@) + ts);
                    }
                }
                tokens.push(token);
                at = next;
            },
            None => {
                return None;
            },
        }
    }
    proof {
        assert(pattern@.skip(len as int) =~= Seq::<char>::empty());
        assert(token_views(tokens@) + Seq::<Token>::empty() =~= token_views(tokens@));
    }
    Some(tokens)
}

fn same_variable(a: &PatternToken, b: &PatternToken) -> (same: bool)
    ensures
        same == (a@ is Variable && a@ == b@),
{
    match (a, b) {
        (PatternToken::Variable(x), PatternToken::Variable(y)) => str_eq(
            x.as_str(),
            y.as_str(),
        ),
        _ => false,
    }
}

fn variables_distinct(tokens: &Vec<PatternToken>) -> (b: bool)
    ensures
        b == names_distinct(token_views(tokens@)),
{
    let ghost ts = token_views(tokens@);
    let mut j: usize = 0;
    while j < tokens.len()
        invariant
            ts == token_views(tokens@),
            j <= tokens@.len(),
            forall|x: int, y: int|
                0 <= x < y < j && (#[trigger] ts[x]) is Variable ==> ts[x] != #[trigger] ts[y],
        decreases tokens@.len() - j,
    {
        let mut i: usize = 0;
        while i < j
            invariant
                ts == token_views(tokens@),
                i <= j < tokens@.len(),
                forall|x: int|
                    0 <= x < i && (#[trigger] ts[x]) is Variable ==> ts[x] != ts[j as int],
            decreases j - i,
        {
            if same_variable(&tokens[i], &tokens[j]) {
                assert(ts[i as int] is Variable && ts[i as int] == ts[j as int]);
                return false;
            }
            i = i + 1;
        }
        j = j + 1;
    }
    true
}

fn run_within_segment(path: &Vec<char>, from: usize, to: usize) -> (b: bool)
    requires
        from <= to <= path@.len(),
    ensures
        b == within_segment(path@.subrange(from as int, to as int)),
{
    let ghost piece = path@.subrange(from as int, to as int);
    let mut i: usize = from;
    while i < to
        invariant
            from <= i <= to <= path@.len(),
            piece == path@.subrange(from as int, to as int),
            forall|k: int| 0 <= k < i - from ==> piece[k] != '/',
        decreases to - i,
    {
        assert(piece[i - from] == path@[i as int]);
        if path[i] == '/' {
            return false;
        }
        i = i + 1;
    }
    true
}

fn run_admitted(token: &PatternToken, path: &Vec<char>, from: usize, to: usize) -> (b: bool)
    requires
        from <= to <= path@.len(),
    ensures
        b == admits(token@, path@.subrange(from as int, to as int)),
{
    let ghost piece = path@.subrange(from as int, to as int);
    match token {
        PatternToken::Literal(c) => {
            if to - from != 1 {
                assert(seq![*c].len() == 1);
                false
            } else {
                assert(piece =~= seq![path@[from as int]]);
                assert(piece[0] == path@[from as int] && seq![*c][0] == *c);
                path[from] == *c
            }
        },
        PatternToken::AnyChar => to - from == 1 && run_within_segment(path, from, to),
        PatternToken::Star => run_within_segment(path, from, to),
        PatternToken::DoubleStar => true,
        PatternToken::Variable(_) => to > from && run_within_segment(path, from, to),
    }
}

/// `table` holds, for the last elements of the pattern and the last characters of the path, whether
/// the ones match the others; rows and columns are counted from the end.
spec fn table_row(
    ts: Seq<Token>,
    path: Seq<char>,
    row: Seq<bool>,
    i: int,
) -> bool {
    &&& row.len() == path.len() + 1
    &&& forall|m: int|
        0 <= m <= path.len() ==> #[trigger] row[m] == reach(ts, path, i, path.len() - m)
}

fn reach_row(
    token: &PatternToken,
    below: &Vec<bool>,
    path: &Vec<char>,
    Ghost(ts): Ghost<Seq<Token>>,
    Ghost(i): Ghost<int>,
) -> (row: Vec<bool>)
    requires
        0 <= i < ts.len(),
        ts[i] == token@,
        table_row(ts, path@, below@, i + 1),
    ensures
        table_row(ts, path@, row@, i),
{
    let len: usize = path.len();
    let mut row: Vec<bool> = Vec::new();
    let mut m: usize = 0;
    let width: usize = below.len();
    assert(width == len + 1);
    while m <= len
        invariant
            0 <= i < ts.len(),
            ts[i] == token@,
            len == path@.len(),
            len < usize::MAX,
            table_row(ts, path@, below@, i + 1),
            m <= len + 1,
            row@.len() == m,
            forall|k: int| 0 <= k < m ==> #[trigger] row@[k] == reach(ts, path@, i, len - k),
        decreases len + 1 - m,
    {
        let ghost j = len - m;
        assert(below@[m as int] == reach(ts, path@, i + 1, j));
        let value: bool = if m == 0 {
            match token {
                PatternToken::Star | PatternToken::DoubleStar => below[m],
                _ => false,
            }
        } else {
            let c = path[len - m];
            assert(below@[m - 1] == reach(ts, path@, i + 1, j + 1));
            assert(row@[m - 1] == reach(ts, path@, i, j + 1));
            match token {
                PatternToken::Literal(l) => c == *l && below[m - 1],
                PatternToken::AnyChar => c != '/' && below[m - 1],
                PatternToken::Star => below[m] || (c != '/' && row[m - 1]),
                PatternToken::DoubleStar => below[m] || row[m - 1],
                PatternToken::Variable(_) => c != '/' && (below[m - 1] || row[m - 1]),
            }
        };
        assert(value == reach(ts, path@, i, j));
        row.push(value);
        m = m + 1;
    }
    row
}

/// Where the longest piece ends that the element takes from `from` on while it leaves a rest which
/// can be matched.
fn longest_run(
    token: &PatternToken,
    below: &Vec<bool>,
    path: &Vec<char>,
    from: usize,
    Ghost(ts): Ghost<Seq<Token>>,
    Ghost(i): Ghost<int>,
) -> (end: usize)
    requires
        0 <= i < ts.len(),
        ts[i] == token@,
        table_row(ts, path@, below@, i + 1),
        from <= path@.len(),
        reach(ts, path@, i, from as int),
    ensures
        from <= end <= path@.len(),
        admits(token@, path@.subrange(from as int, end as int)),
        reach(ts, path@, i + 1, end as int),
        forall|x: int|
            #![trigger path@.subrange(from as int, x)]
            end < x <= path@.len() && admits(token@, path@.subrange(from as int, x)) ==> !reach(
                ts,
                path@,
                i + 1,
                x,
            ),
{
    let len: usize = path.len();
    let mut end: usize = len;
    while end > from && !(run_admitted(token, path, from, end) && below[len - end])
        invariant
            len == path@.len(),
            table_row(ts, path@, below@, i + 1),
            from <= end <= len,
            forall|x: int|
                #![trigger path@.subrange(from as int, x)]
                end < x <= len && admits(token@, path@.subrange(from as int, x)) ==> !reach(
                    ts,
                    path@,
                    i + 1,
                    x,
                ),
        decreases end - from,
    {
        assert(below@[len - end] == reach(ts, path@, i + 1, end as int));
        end = end - 1;
    }
    proof {
        assert(below@[len - end] == reach(ts, path@, i + 1, end as int));
        lemma_reach_has_end(ts, path@, i, from as int);
        let x = choose|x: int|
            from <= x <= len && admits(ts[i], #[trigger] path@.subrange(from as int, x)) && reach(
                ts,
                path@,
                i + 1,
                x,
            );
        assert(x <= end);
    }
    end
}

/// One cut more, for the next element.
proof fn lemma_longest_cuts_push(ts: Seq<Token>, path: Seq<char>, cuts: Seq<int>, end: int)
    requires
        longest_cuts(ts, path, cuts),
        cuts.len() <= ts.len(),
        cuts.last() <= end <= path.len(),
        admits(ts[cuts.len() - 1], path.subrange(cuts.last(), end)),
        forall|x: int|
            #![trigger path.subrange(cuts.last(), x)]
            end < x <= path.len() && admits(ts[cuts.len() - 1], path.subrange(cuts.last(), x))
                ==> !reach(ts, path, cuts.len() as int, x),
    ensures
        longest_cuts(ts, path, cuts.push(end)),
{
    let more = cuts.push(end);
    lemma_cuts_concat(ts, path, cuts, cuts.len() - 1);
    assert forall|k: int| 0 <= k < more.len() - 1 implies ({
        &&& 0 <= #[trigger] more[k] <= more[k + 1] <= path.len()
        &&& admits(ts[k], path.subrange(more[k], more[k + 1]))
        &&& forall|e: int|
            #![trigger path.subrange(more[k], e)]
            more[k + 1] < e <= path.len() && admits(ts[k], path.subrange(more[k], e)) ==> !reach(
                ts,
                path,
                k + 1,
                e,
            )
    }) by {
        assert(more[k] == cuts[k]);
        if k < cuts.len() - 1 {
            assert(more[k + 1] == cuts[k + 1]);
        } else {
            assert(more[k + 1] == end);
        }
    }
}

/// `vars` holds the variables among the elements before the last cut, each with its piece.
spec fn binds_upto(
    vars: Map<Seq<char>, String>,
    ts: Seq<Token>,
    path: Seq<char>,
    cuts: Seq<int>,
) -> bool {
    let n = cuts.len() - 1;
    &&& forall|name: Seq<char>|
        #![trigger vars.contains_key(name)]
        vars.contains_key(name) <==> exists|k: int|
            0 <= k < n && #[trigger] ts[k] == Token::Variable(name)
    &&& forall|k: int|
        0 <= k < n ==> (#[trigger] ts[k] matches Token::Variable(name) ==> vars[name]@
            == path.subrange(cuts[k], cuts[k + 1]))
}

proof fn lemma_binds_upto_push(
    vars: Map<Seq<char>, String>,
    more: Map<Seq<char>, String>,
    ts: Seq<Token>,
    path: Seq<char>,
    cuts: Seq<int>,
    end: int,
    value: String,
)
    requires
        binds_upto(vars, ts, path, cuts),
        1 <= cuts.len() <= ts.len(),
        names_distinct(ts),
        match ts[cuts.len() - 1] {
            Token::Variable(name) => value@ == path.subrange(cuts.last(), end) && more
                == vars.insert(name, value),
            _ => more == vars,
        },
    ensures
        binds_upto(more, ts, path, cuts.push(end)),
{
    let n = cuts.len() - 1;
    let longer = cuts.push(end);
    assert forall|name: Seq<char>|
        #![trigger more.contains_key(name)]
        more.contains_key(name) <==> exists|k: int|
            0 <= k < n + 1 && #[trigger] ts[k] == Token::Variable(name) by {
        if vars.contains_key(name) {
            let k = choose|k: int| 0 <= k < n && #[trigger] ts[k] == Token::Variable(name);
            assert(ts[k] == Token::Variable(name));
        }
        if more.contains_key(name) && !vars.contains_key(name) {
            assert(ts[n] == Token::Variable(name));
        }
        if exists|k: int| 0 <= k < n + 1 && #[trigger] ts[k] == Token::Variable(name) {
            let k = choose|k: int| 0 <= k < n + 1 && #[trigger] ts[k] == Token::Variable(name);
            if k < n {
                assert(vars.contains_key(name));
            }
        }
    }
    assert forall|k: int| 0 <= k < n + 1 implies (#[trigger] ts[k] matches Token::Variable(
        name,
    ) ==> more[name]@ == path.subrange(longer[k], longer[k + 1])) by {
        if k < n {
            assert(longer[k] == cuts[k] && longer[k + 1] == cuts[k + 1]);
            assert(ts[k] is Variable ==> ts[k] != ts[n]);
        } else {
            assert(longer[k] == cuts.last() && longer[k + 1] == end);
        }
    }
}

fn copy_tokens(tokens: &Vec<PatternToken>) -> (copy: Vec<PatternToken>)
    ensures
        token_views(copy@) == token_views(tokens@),
{
    let mut copy: Vec<PatternToken> = Vec::new();
    let mut i: usize = 0;
    while i < tokens.len()
        invariant
            i <= tokens@.len(),
            copy@.len() == i,
            forall|k: int| 0 <= k < i ==> (#[trigger] copy@[k])@ == tokens@[k]@,
        decreases tokens@.len() - i,
    {
        let token = match &tokens[i] {
            PatternToken::Literal(c) => PatternToken::Literal(*c),
            PatternToken::AnyChar => PatternToken::AnyChar,
            PatternToken::Star => PatternToken::Star,
            PatternToken::DoubleStar => PatternToken::DoubleStar,
            PatternToken::Variable(name) => PatternToken::Variable(name.clone()),
        };
        copy.push(token);
        i = i + 1;
    }
    assert(token_views(copy@) =~= token_views(tokens@));
    copy
}

impl Clone for RoutePattern {
    fn clone(&self) -> (copy: Self)
        ensures
            copy@ == self@,
    {
        proof {
            use_type_invariant(self);
        }
        RoutePattern { pattern: self.pattern.clone(), tokens: copy_tokens(&self.tokens) }
    }
}

impl RoutePattern {
    #[verifier::type_invariant]
    spec fn well_formed(self) -> bool {
        tokens_of(self.pattern@) == Some(token_views(self.tokens@))
    }

    /// Reads a pattern.
    pub fn from_pattern(pattern: &str) -> (r: Result<RoutePattern, PatternError>)
        ensures
            match r {
                Ok(rp) => rp@ == pattern@ && tokens_of(pattern@) is Some,
                Err(_) => tokens_of(pattern@) is None,
            },
    {
        match parse_tokens(pattern) {
            Some(tokens) => {
                if variables_distinct(&tokens) {
                    Ok(RoutePattern { pattern: pattern.to_owned(), tokens })
                } else {
                    Err(PatternError)
                }
            },
            None => Err(PatternError),
        }
    }

    /// The text of the pattern.
    pub fn pattern(&self) -> (p: &str)
        ensures
            p@ == self@,
            tokens_of(self@) is Some,
    {
        proof {
            use_type_invariant(self);
        }
        self.pattern.as_str()
    }

    /// For each number of last elements, the row of what the last characters of the path match.
    fn reach_table(&self, path: &Vec<char>) -> (table: Vec<Vec<bool>>)
        ensures
            table@.len() == self.tokens@.len() + 1,
            forall|n: int|
                0 <= n <= self.tokens@.len() ==> table_row(
                    token_views(self.tokens@),
                    path@,
                    (#[trigger] table@[n])@,
                    self.tokens@.len() - n,
                ),
    {
        let ghost ts = token_views(self.tokens@);
        let count: usize = self.tokens.len();
        let len: usize = path.len();
        let mut last: Vec<bool> = Vec::new();
        last.push(true);
        let mut m: usize = 0;
        while m < len
            invariant
                len == path@.len(),
                ts == token_views(self.tokens@),
                m <= len,
                last@.len() == m + 1,
                forall|k: int|
                    0 <= k <= m ==> #[trigger] last@[k] == reach(
                        ts,
                        path@,
                        ts.len() as int,
                        len - k,
                    ),
            decreases len - m,
        {
            last.push(false);
            m = m + 1;
        }
        let mut table: Vec<Vec<bool>> = Vec::new();
        table.push(last);
        let mut n: usize = 0;
        while n < count
            invariant
                count == self.tokens@.len(),
                ts == token_views(self.tokens@),
                n <= count,
                table@.len() == n + 1,
                forall|k: int|
                    0 <= k <= n ==> table_row(ts, path@, (#[trigger] table@[k])@, count - k),
            decreases count - n,
        {
            let i: usize = count - 1 - n;
            assert(table_row(ts, path@, table@[n as int]@, count - n));
            let row = reach_row(&self.tokens[i], &table[n], path, Ghost(ts), Ghost(i as int));
            table.push(row);
            n = n + 1;
        }
        table
    }

    /// Whether the pattern matches the whole of `path`.
    pub fn matches(&self, path: &str) -> (b: bool)
        ensures
            b == pattern_matches(self@, path@),
    {
        proof {
            use_type_invariant(self);
            lemma_reach_iff_match(token_views(self.tokens@), path@);
        }
        let cs = chars_of(path);
        let table = self.reach_table(&cs);
        assert(table_row(token_views(self.tokens@), path@, table@[self.tokens@.len() as int]@, 0));
        table[self.tokens.len()][cs.len()]
    }

    /// The text that each variable of the pattern stands for in `path`, where the pattern matches
    /// the whole of it.
    pub fn match_path(&self, path: &str) -> (vars: Option<StringHashMap<String>>)
        ensures
            match vars {
                Some(m) => tokens_of(self@) matches Some(ts) && exists|pieces: Seq<Seq<char>>|
                    covers_greedily(ts, path@, pieces) && binds(m@, ts, pieces),
                None => !pattern_matches(self@, path@),
            },
    {
        proof {
            use_type_invariant(self);
            lemma_reach_iff_match(token_views(self.tokens@), path@);
        }
        let ghost ts = token_views(self.tokens@);
        let cs = chars_of(path);
        let len: usize = cs.len();
        let count: usize = self.tokens.len();
        let table = self.reach_table(&cs);
        assert(table_row(ts, path@, table@[count as int]@, 0));
        if !table[count][len] {
            return None;
        }
        let mut vars: StringHashMap<String> = StringHashMap::new();
        let mut i: usize = 0;
        let mut j: usize = 0;
        let ghost mut cuts: Seq<int> = seq![0int];
        assert(reach(ts, path@, 0, 0));
        while i < count
            invariant
                cs@ == path@,
                len == cs@.len(),
                count == self.tokens@.len(),
                ts == token_views(self.tokens@),
                names_distinct(ts),
                table@.len() == count + 1,
                forall|n: int|
                    0 <= n <= count ==> table_row(ts, path@, (#[trigger] table@[n])@, count - n),
                i <= count,
                j <= len,
                cuts.len() == i + 1,
                cuts.last() == j,
                reach(ts, path@, i as int, j as int),
                longest_cuts(ts, path@, cuts),
                binds_upto(vars@, ts, path@, cuts),
            decreases count - i,
        {
            let below = &table[count - i - 1];
            assert(table_row(ts, path@, table@[count - i - 1]@, i + 1));
            let end: usize = longest_run(
                &self.tokens[i],
                below,
                &cs,
                j,
                Ghost(ts),
                Ghost(i as int),
            );
            let piece = path.substring_char(j, end).to_owned();
            let ghost before = vars@;
            let ghost value = piece;
            assert(ts[i as int] == self.tokens@[i as int]@);
            match &self.tokens[i] {
                PatternToken::Variable(name) => {
                    vars.insert(name.clone(), piece);
                },
                _ => {},
            }
            proof {
                lemma_longest_cuts_push(ts, path@, cuts, end as int);
                lemma_binds_upto_push(before, vars@, ts, path@, cuts, end as int, value);
                cuts = cuts.push(end as int);
            }
            j = end;
            i = i + 1;
        }
        proof {
            let pieces = pieces_at(path@, cuts);
            lemma_longest_cuts_cover_greedily(ts, path@, cuts);
            assert forall|name: Seq<char>|
                #![trigger vars@.contains_key(name)]
                vars@.contains_key(name) <==> ts.contains(Token::Variable(name)) by {
                if vars@.contains_key(name) {
                    let k = choose|k: int|
                        0 <= k < ts.len() && #[trigger] ts[k] == Token::Variable(name);
                    assert(ts.contains(ts[k]));
                }
            }
            assert(binds(vars@, ts, pieces));
        }
        Some(vars)
    }
}

/// Where the rest can be matched, some piece leads on to it.
proof fn lemma_reach_has_end(ts: Seq<Token>, path: Seq<char>, i: int, j: int)
    requires
        0 <= i < ts.len(),
        0 <= j <= path.len(),
        reach(ts, path, i, j),
    ensures
        exists|e: int|
            j <= e <= path.len() && admits(ts[i], #[trigger] path.subrange(j, e)) && reach(
                ts,
                path,
                i + 1,
                e,
            ),
{
    let pieces = lemma_reach_gives_cover(ts, path, i, j);
    lemma_cover_at(ts.skip(i), path.skip(j), pieces, 0);
    assert(pieces.take(0) =~= Seq::<Seq<char>>::empty());
    let e = j + pieces[0].len();
    assert(path.skip(j).subrange(0, pieces[0].len() as int) =~= path.subrange(j, e));
    assert(ts.skip(i)[0] == ts[i]);
    assert(admits(ts.skip(i)[0], pieces[0]));
    assert(ts.skip(i).skip(1) =~= ts.skip(i + 1));
    assert(path.skip(j).skip(pieces[0].len() as int) =~= path.skip(e));
    lemma_cover_gives_reach(ts, path, i + 1, e, pieces.skip(1));
}

// ----- laws -----

/// The elements of a text without pattern characters.
spec fn literals(text: Seq<char>) -> Seq<Token>
    decreases text.len(),
{
    if text.len() == 0 {
        Seq::empty()
    } else {
        seq![literal(text[0])] + literals(text.drop_first())
    }
}

proof fn lemma_parse_plain_front(plain: Seq<char>, tail: Seq<char>)
    requires
        !is_pattern(plain),
    ensures
        parse(plain + tail) == followed_by(literals(plain), parse(tail)),
    decreases plain.len(),
{
    let p = plain + tail;
    if plain.len() == 0 {
        assert(p =~= tail);
        if let Some(ts) = parse(tail) {
            assert(literals(plain) + ts =~= ts);
        }
    } else {
        let rest = plain.drop_first();
        assert(plain.contains(plain[0]));
        assert forall|c: char| rest.contains(c) implies plain.contains(c) by {
            let k = choose|k: int| 0 <= k < rest.len() && rest[k] == c;
            assert(plain[k + 1] == c);
        }
        lemma_parse_plain_front(rest, tail);
        assert(p.drop_first() =~= rest + tail);
        assert(p[0] == plain[0]);
        if let Some(ts) = parse(tail) {
            assert(seq![literal(plain[0])] + (literals(rest) + ts) =~= literals(plain) + ts);
        }
    }
}

proof fn lemma_match_literal_front(c: char, ts: Seq<Token>, path: Seq<char>)
    ensures
        tokens_match(seq![literal(c)] + ts, path) <==> path.len() > 0 && path[0] == c
            && tokens_match(ts, path.drop_first()),
{
    let all = seq![literal(c)] + ts;
    if tokens_match(all, path) {
        let pieces = choose|pieces: Seq<Seq<char>>| covers(all, path, pieces);
        assert(admits(all[0], pieces[0]));
        let rest = pieces.drop_first();
        assert(path == seq![c] + concat(rest));
        assert(path.drop_first() =~= concat(rest));
        assert forall|i: int| 0 <= i < ts.len() implies admits(#[trigger] ts[i], rest[i]) by {
            assert(all[i + 1] == ts[i]);
        }
        assert(covers(ts, path.drop_first(), rest));
    }
    if path.len() > 0 && path[0] == c && tokens_match(ts, path.drop_first()) {
        let rest = choose|rest: Seq<Seq<char>>| covers(ts, path.drop_first(), rest);
        let pieces = seq![seq![c]] + rest;
        lemma_concat_cons(seq![c], rest);
        assert(seq![c] + path.drop_first() =~= path);
        assert forall|i: int| 0 <= i < all.len() implies admits(#[trigger] all[i], pieces[i]) by {
            if i > 0 {
                assert(all[i] == ts[i - 1]);
            }
        }
        assert(covers(all, path, pieces));
    }
}

proof fn lemma_match_plain_front(plain: Seq<char>, ts: Seq<Token>, path: Seq<char>)
    ensures
        tokens_match(literals(plain) + ts, path) <==> starts_with(path, plain) && tokens_match(
            ts,
            path.skip(plain.len() as int),
        ),
    decreases plain.len(),
{
    let all = literals(plain) + ts;
    if plain.len() == 0 {
        assert(all =~= ts);
        assert(path.take(0) =~= plain);
        assert(path.skip(0) =~= path);
    } else {
        let rest = plain.drop_first();
        assert(all =~= seq![literal(plain[0])] + (literals(rest) + ts));
        lemma_match_literal_front(plain[0], literals(rest) + ts, path);
        if path.len() > 0 {
            let tail = path.drop_first();
            lemma_match_plain_front(rest, ts, tail);
            if plain.len() <= path.len() {
                assert(path.skip(plain.len() as int) =~= tail.skip(rest.len() as int));
                assert(path.take(plain.len() as int) =~= seq![path[0]] + tail.take(
                    rest.len() as int,
                ));
                assert(plain =~= seq![plain[0]] + rest);
                if path.take(plain.len() as int) == plain {
                    assert(path[0] == path.take(plain.len() as int)[0]);
                    assert(tail.take(rest.len() as int) =~= path.take(
                        plain.len() as int,
                    ).drop_first());
                }
            }
        }
    }
}

proof fn lemma_literals_no_variable(plain: Seq<char>)
    ensures
        forall|i: int|
            0 <= i < literals(plain).len() ==> !((#[trigger] literals(plain)[i]) is Variable),
    decreases plain.len(),
{
    if plain.len() > 0 {
        lemma_literals_no_variable(plain.drop_first());
    }
}

proof fn lemma_plain_names_distinct(plain: Seq<char>, last: Token)
    ensures
        names_distinct(literals(plain)),
        names_distinct(literals(plain).push(last)),
{
    lemma_literals_no_variable(plain);
    let all = literals(plain).push(last);
    assert forall|i: int, j: int|
        0 <= i < j < all.len() && (#[trigger] all[i]) is Variable implies all[i]
            != #[trigger] all[j] by {
        assert(!(literals(plain)[i] is Variable));
    }
}

/// A text without pattern characters matches itself and nothing else.
pub proof fn lemma_plain_pattern_matches_itself(plain: Seq<char>, path: Seq<char>)
    requires
        !is_pattern(plain),
    ensures
        pattern_matches(plain, path) <==> path == plain,
{
    let none = Seq::<char>::empty();
    lemma_parse_plain_front(plain, none);
    assert(plain + none =~= plain);
    let no_tokens = Seq::<Token>::empty();
    assert(literals(plain) + no_tokens =~= literals(plain));
    lemma_plain_names_distinct(plain, Token::Star);
    lemma_match_plain_front(plain, no_tokens, path);
    let rest = path.skip(plain.len() as int);
    if starts_with(path, plain) {
        if tokens_match(no_tokens, rest) {
            let pieces = choose|pieces: Seq<Seq<char>>| covers(no_tokens, rest, pieces);
            assert(rest.len() == 0);
            assert(path.take(plain.len() as int) =~= path);
        }
        if path == plain {
            assert(rest =~= none);
            assert(covers(no_tokens, rest, Seq::<Seq<char>>::empty()));
        }
    } else {
        assert(path.take(path.len() as int) =~= path);
    }
}

/// A plain text followed by `**` matches the paths that begin with that text.
pub proof fn lemma_double_star_matches_subtree(plain: Seq<char>, path: Seq<char>)
    requires
        !is_pattern(plain),
    ensures
        pattern_matches(plain + "**"@, path) <==> starts_with(path, plain),
{
    reveal_strlit("**");
    let tail = "**"@;
    let one = seq![Token::DoubleStar];
    lemma_parse_plain_front(plain, tail);
    assert(tail.skip(2) =~= Seq::<char>::empty());
    assert(one + Seq::<Token>::empty() =~= one);
    assert(parse(Seq::<char>::empty()) == Some(Seq::<Token>::empty()));
    assert(parse(tail) == Some(one));
    assert(literals(plain) + one =~= literals(plain).push(Token::DoubleStar));
    lemma_plain_names_distinct(plain, Token::DoubleStar);
    lemma_match_plain_front(plain, one, path);
    let rest = path.skip(plain.len() as int);
    let pieces = seq![rest];
    assert(pieces.drop_first() =~= Seq::<Seq<char>>::empty());
    assert(concat(pieces.drop_first()) =~= Seq::<char>::empty());
    assert(rest + Seq::<char>::empty() =~= rest);
    assert(covers(one, rest, pieces));
}

/// A plain text followed by one variable matches that text with a non-empty run of characters
/// other than `/` behind it.
pub proof fn lemma_variable_matches_segment(plain: Seq<char>, name: Seq<char>, path: Seq<char>)
    requires
        !is_pattern(plain),
        is_name(name),
    ensures
        pattern_matches(plain + "{"@ + name + "}"@, path) <==> {
            &&& starts_with(path, plain)
            &&& path.len() > plain.len()
            &&& within_segment(path.skip(plain.len() as int))
        },
{
    reveal_strlit("{");
    reveal_strlit("}");
    let tail = "{"@ + name + "}"@;
    assert(plain + "{"@ + name + "}"@ =~= plain + tail);
    let one = seq![Token::Variable(name)];
    lemma_parse_plain_front(plain, tail);
    assert(tail[0] == '{');
    let inner = tail.drop_first();
    assert(inner =~= name + seq!['}']);
    assert(inner.take(name.len() as int) =~= name);
    assert forall|k: int| 0 <= k < name.len() implies inner[k] != '}' by {
        assert(is_word_char(name[k]));
        assert(inner[k] == name[k]);
    }
    lemma_before_first(inner, '}', name.len() as int);
    assert(tail.skip(name.len() as int + 2) =~= Seq::<char>::empty());
    assert(one + Seq::<Token>::empty() =~= one);
    assert(parse(Seq::<char>::empty()) == Some(Seq::<Token>::empty()));
    assert(parse(tail) == Some(one));
    assert(literals(plain) + one =~= literals(plain).push(Token::Variable(name)));
    lemma_plain_names_distinct(plain, Token::Variable(name));
    lemma_match_plain_front(plain, one, path);
    let rest = path.skip(plain.len() as int);
    if starts_with(path, plain) {
        let pieces = seq![rest];
        assert(pieces.drop_first() =~= Seq::<Seq<char>>::empty());
        assert(concat(pieces.drop_first()) =~= Seq::<char>::empty());
        assert(rest + Seq::<char>::empty() =~= rest);
        if rest.len() >= 1 && within_segment(rest) {
            assert(covers(one, rest, pieces));
        }
        if tokens_match(one, rest) {
            let found = choose|found: Seq<Seq<char>>| covers(one, rest, found);
            assert(found.drop_first() =~= Seq::<Seq<char>>::empty());
            assert(found[0] + Seq::<char>::empty() =~= found[0]);
            assert(admits(one[0], found[0]));
        }
    }
}

/// An element alone stands for: its own character, one character other than `/`, any number of
/// them, any text at all, or at least one character other than `/`.
pub proof fn lemma_one_element(t: Token, text: Seq<char>)
    ensures
        tokens_match(seq![t], text) <==> match t {
            Token::Literal(c) => text.len() == 1 && text[0] == c,
            Token::AnyChar => text.len() == 1 && text[0] != '/',
            Token::Star => forall|k: int| 0 <= k < text.len() ==> #[trigger] text[k] != '/',
            Token::DoubleStar => true,
            Token::Variable(_) => text.len() > 0 && forall|k: int|
                0 <= k < text.len() ==> #[trigger] text[k] != '/',
        },
{
    let one = seq![t];
    let pieces = seq![text];
    assert(pieces.drop_first() =~= Seq::<Seq<char>>::empty());
    assert(concat(pieces.drop_first()) =~= Seq::<char>::empty());
    assert(text + Seq::<char>::empty() =~= text);
    if admits(t, text) {
        assert(covers(one, text, pieces));
    }
    if tokens_match(one, text) {
        let found = choose|found: Seq<Seq<char>>| covers(one, text, found);
        assert(found.drop_first() =~= Seq::<Seq<char>>::empty());
        assert(concat(found.drop_first()) =~= Seq::<char>::empty());
        assert(found[0] + Seq::<char>::empty() =~= found[0]);
        assert(admits(one[0], found[0]));
    }
    assert(within_segment(text) <==> forall|k: int|
        0 <= k < text.len() ==> #[trigger] text[k] != '/') by {
        if forall|k: int| 0 <= k < text.len() ==> #[trigger] text[k] != '/' {
            if text.contains('/') {
                let k = text.index_of('/');
                assert(text[k] == '/');
            }
        } else {
            let k = choose|k: int| 0 <= k < text.len() && #[trigger] text[k] == '/';
            assert(text.contains(text[k]));
        }
    }
    match t {
        Token::Literal(c) => {
            if text.len() == 1 && text[0] == c {
                assert(text =~= seq![c]);
            }
            if text == seq![c] {
                assert(seq![c][0] == c);
            }
        },
        _ => {},
    }
}

/// Elements in a row stand for texts in a row: a text is matched exactly where it can be cut in two
/// so that the first elements match the first part and the others the second. No elements match the
/// empty text and no other.
pub proof fn lemma_elements_in_a_row(a: Seq<Token>, b: Seq<Token>, x: Seq<char>, y: Seq<char>)
    ensures
        tokens_match(a, x) && tokens_match(b, y) ==> tokens_match(a + b, x + y),
        tokens_match(a + b, x) ==> exists|k: int|
            0 <= k <= x.len() && #[trigger] tokens_match(a, x.take(k)) && tokens_match(
                b,
                x.skip(k),
            ),
        tokens_match(Seq::<Token>::empty(), x) <==> x.len() == 0,
{
    if tokens_match(a, x) && tokens_match(b, y) {
        let first = choose|first: Seq<Seq<char>>| covers(a, x, first);
        let second = choose|second: Seq<Seq<char>>| covers(b, y, second);
        let both = first + second;
        lemma_concat_split(both, first.len() as int);
        assert(both.take(first.len() as int) =~= first);
        assert(both.skip(first.len() as int) =~= second);
        assert forall|i: int| 0 <= i < (a + b).len() implies admits(
            #[trigger] (a + b)[i],
            both[i],
        ) by {
            if i < a.len() {
                assert(admits(a[i], first[i]));
            } else {
                assert(admits(b[i - a.len()], second[i - a.len()]));
            }
        }
        assert(covers(a + b, x + y, both));
    }
    if tokens_match(a + b, x) {
        let pieces = choose|pieces: Seq<Seq<char>>| covers(a + b, x, pieces);
        let n = a.len() as int;
        lemma_concat_split(pieces, n);
        let first = pieces.take(n);
        let second = pieces.skip(n);
        let k = concat(first).len() as int;
        assert(x.take(k) =~= concat(first));
        assert(x.skip(k) =~= concat(second));
        assert forall|i: int| 0 <= i < a.len() implies admits(#[trigger] a[i], first[i]) by {
            assert(admits((a + b)[i], pieces[i]));
        }
        assert forall|i: int| 0 <= i < b.len() implies admits(#[trigger] b[i], second[i]) by {
            assert(admits((a + b)[i + n], pieces[i + n]));
        }
        assert(covers(a, x.take(k), first));
        assert(covers(b, x.skip(k), second));
        assert(tokens_match(a, x.take(k)));
    }
    let none = Seq::<Token>::empty();
    if x.len() == 0 {
        assert(x =~= Seq::<char>::empty());
        assert(covers(none, x, Seq::<Seq<char>>::empty()));
    }
    if tokens_match(none, x) {
        let pieces = choose|pieces: Seq<Seq<char>>| covers(none, x, pieces);
        assert(pieces.len() == 0);
    }
}

/// How an element is written in a pattern.
pub open spec fn written(t: Token) -> Seq<char> {
    match t {
        Token::Literal(c) => seq![c],
        Token::AnyChar => seq!['?'],
        Token::Star => seq!['*'],
        Token::DoubleStar => seq!['*', '*'],
        Token::Variable(name) => seq!['{'] + name + seq!['}'],
    }
}

/// The elements as they are written one after the other.
pub open spec fn written_out(ts: Seq<Token>) -> Seq<char>
    decreases ts.len(),
{
    if ts.len() == 0 {
        Seq::empty()
    } else {
        written(ts[0]) + written_out(ts.drop_first())
    }
}

/// Reading a pattern loses nothing and adds nothing: its elements, written out, are the pattern. A
/// literal is never one of the characters that begin another element, and only an unclosed or
/// misnamed variable makes a pattern unreadable.
pub proof fn lemma_pattern_is_read_whole(p: Seq<char>)
    ensures
        match parse(p) {
            Some(ts) => {
                &&& written_out(ts) == p
                &&& forall|i: int|
                    0 <= i < ts.len() ==> (#[trigger] ts[i] matches Token::Literal(c) ==> c != '*'
                        && c != '?' && c != '{')
                &&& forall|i: int|
                    0 <= i < ts.len() ==> (#[trigger] ts[i] matches Token::Variable(name)
                        ==> is_name(name))
            },
            None => p.contains('{'),
        },
    decreases p.len(),
{
    if p.len() > 0 {
        let (one, rest): (Token, Seq<char>) = if p[0] == '{' {
            let name = before_first(p.drop_first(), '}');
            (Token::Variable(name), p.skip(name.len() as int + 2))
        } else if p[0] == '*' && p.len() > 1 && p[1] == '*' {
            (Token::DoubleStar, p.skip(2))
        } else if p[0] == '*' {
            (Token::Star, p.drop_first())
        } else if p[0] == '?' {
            (Token::AnyChar, p.drop_first())
        } else {
            (literal(p[0]), p.drop_first())
        };
        if p[0] == '{' {
            assert(p.contains(p[0]));
            let inner = p.drop_first();
            let name = before_first(inner, '}');
            lemma_before_first_ends(inner, '}');
            if name.len() + 1 < p.len() {
                lemma_pattern_is_read_whole(rest);
                assert(inner.take(name.len() as int) == name);
                assert(p =~= written(one) + rest) by {
                    let whole = written(one) + rest;
                    assert(whole.len() == p.len());
                    assert forall|i: int| 0 <= i < p.len() implies p[i] == whole[i] by {
                        if 1 <= i <= name.len() {
                            assert(inner.take(name.len() as int)[i - 1] == p[i]);
                        }
                    }
                }
            }
        } else {
            lemma_pattern_is_read_whole(rest);
            assert(p =~= written(one) + rest);
            if rest.contains('{') {
                let k = rest.index_of('{');
                assert(p[k + (p.len() - rest.len())] == '{');
            }
        }
        if parse(p) is Some {
            let ts = parse(p)->0;
            let tail = parse(rest)->0;
            assert(ts =~= seq![one] + tail);
            assert(ts.drop_first() =~= tail);
            assert forall|i: int| 0 <= i < ts.len() implies (
            #[trigger] ts[i] matches Token::Literal(c) ==> c != '*' && c != '?' && c != '{') && (
            ts[i] matches Token::Variable(name) ==> is_name(name)) by {
                if i > 0 {
                    assert(ts[i] == tail[i - 1]);
                } else {
                    assert(ts[0] == one);
                }
            }
        }
    }
}

/// A plain text followed by `*` matches that text with any characters but `/` behind it.
pub proof fn lemma_star_matches_segment(plain: Seq<char>, path: Seq<char>)
    requires
        !is_pattern(plain),
    ensures
        pattern_matches(plain + "*"@, path) <==> starts_with(path, plain) && forall|k: int|
            plain.len() <= k < path.len() ==> #[trigger] path[k] != '/',
{
    reveal_strlit("*");
    let tail = "*"@;
    let one = seq![Token::Star];
    assert(tail.drop_first() =~= Seq::<char>::empty());
    lemma_one_more(plain, tail, Token::Star, path);
    let rest = path.skip(plain.len() as int);
    lemma_one_element(Token::Star, rest);
    lemma_rest_free_of_slash(plain.len() as int, path);
}

/// A plain text followed by `?` matches that text with one character but `/` behind it.
pub proof fn lemma_question_mark_matches_character(plain: Seq<char>, path: Seq<char>)
    requires
        !is_pattern(plain),
    ensures
        pattern_matches(plain + "?"@, path) <==> starts_with(path, plain) && path.len()
            == plain.len() + 1 && path[plain.len() as int] != '/',
{
    reveal_strlit("?");
    let tail = "?"@;
    assert(tail.drop_first() =~= Seq::<char>::empty());
    lemma_one_more(plain, tail, Token::AnyChar, path);
    let rest = path.skip(plain.len() as int);
    lemma_one_element(Token::AnyChar, rest);
}

proof fn lemma_rest_free_of_slash(n: int, path: Seq<char>)
    requires
        0 <= n,
    ensures
        n <= path.len() ==> ((forall|k: int|
            0 <= k < path.skip(n).len() ==> #[trigger] path.skip(n)[k] != '/') <==> (forall|k: int|
            n <= k < path.len() ==> #[trigger] path[k] != '/')),
{
    if n <= path.len() {
        let rest = path.skip(n);
        if forall|k: int| 0 <= k < rest.len() ==> #[trigger] rest[k] != '/' {
            assert forall|k: int| n <= k < path.len() implies #[trigger] path[k] != '/' by {
                assert(rest[k - n] != '/');
            }
        }
        if forall|k: int| n <= k < path.len() ==> #[trigger] path[k] != '/' {
            assert forall|k: int| 0 <= k < rest.len() implies #[trigger] rest[k] != '/' by {
                assert(path[k + n] != '/');
            }
        }
    }
}

proof fn lemma_one_more(plain: Seq<char>, tail: Seq<char>, last: Token, path: Seq<char>)
    requires
        !is_pattern(plain),
        parse(tail) == Some(seq![last]) || (tail.len() == 1 && (tail[0] == '*' && last
            == Token::Star || tail[0] == '?' && last == Token::AnyChar)),
    ensures
        pattern_matches(plain + tail, path) <==> starts_with(path, plain) && tokens_match(
            seq![last],
            path.skip(plain.len() as int),
        ),
{
    let one = seq![last];
    assert(one + Seq::<Token>::empty() =~= one);
    assert(parse(Seq::<char>::empty()) == Some(Seq::<Token>::empty()));
    if tail.len() == 1 {
        assert(tail.drop_first() =~= Seq::<char>::empty());
    }
    assert(parse(tail) == Some(one));
    lemma_parse_plain_front(plain, tail);
    assert(literals(plain) + one =~= literals(plain).push(last));
    lemma_plain_names_distinct(plain, last);
    lemma_match_plain_front(plain, one, path);
}

/// What makes a text a pattern is an opening brace, a star or a question mark anywhere in it.
pub proof fn lemma_pattern_characters(p: Seq<char>)
    ensures
        is_pattern(p) <==> exists|k: int|
            0 <= k < p.len() && (#[trigger] p[k] == '{' || p[k] == '*' || p[k] == '?'),
{
    if p.contains('{') {
        assert(p[p.index_of('{')] == '{');
    }
    if p.contains('*') {
        assert(p[p.index_of('*')] == '*');
    }
    if p.contains('?') {
        assert(p[p.index_of('?')] == '?');
    }
    if exists|k: int| 0 <= k < p.len() && (#[trigger] p[k] == '{' || p[k] == '*' || p[k] == '?') {
        let k = choose|k: int|
            0 <= k < p.len() && (#[trigger] p[k] == '{' || p[k] == '*' || p[k] == '?');
        assert(p.contains(p[k]));
    }
}

/// A variable can be named with ASCII letters, digits and underscores, at least one of them, and
/// with nothing else.
pub proof fn lemma_variable_names(name: Seq<char>)
    requires
        !name.contains('}'),
    ensures
        tokens_of("{"@ + name + "}"@) is Some <==> name.len() > 0 && forall|k: int|
            0 <= k < name.len() ==> {
                ||| 'a' <= #[trigger] name[k] <= 'z'
                ||| 'A' <= name[k] <= 'Z'
                ||| '0' <= name[k] <= '9'
                ||| name[k] == '_'
            },
{
    reveal_strlit("{");
    reveal_strlit("}");
    let p = "{"@ + name + "}"@;
    let inner = p.drop_first();
    assert(inner =~= name + seq!['}']);
    assert(inner.take(name.len() as int) =~= name);
    assert forall|k: int| 0 <= k < name.len() implies inner[k] != '}' by {
        assert(inner[k] == name[k]);
        assert(name.contains(name[k]));
    }
    lemma_before_first(inner, '}', name.len() as int);
    assert(p.skip(name.len() as int + 2) =~= Seq::<char>::empty());
    assert(parse(Seq::<char>::empty()) == Some(Seq::<Token>::empty()));
    assert(is_name(name) <==> name.len() > 0 && forall|k: int|
        0 <= k < name.len() ==> {
            ||| 'a' <= #[trigger] name[k] <= 'z'
            ||| 'A' <= name[k] <= 'Z'
            ||| '0' <= name[k] <= '9'
            ||| name[k] == '_'
        }) by {
        if is_name(name) {
            assert forall|k: int| 0 <= k < name.len() implies {
                ||| 'a' <= #[trigger] name[k] <= 'z'
                ||| 'A' <= name[k] <= 'Z'
                ||| '0' <= name[k] <= '9'
                ||| name[k] == '_'
            } by {
                assert(is_word_char(name[k]));
            }
        }
    }
    if is_name(name) {
        let ts = seq![Token::Variable(name)] + Seq::<Token>::empty();
        assert(parse(p) == Some(ts));
        assert(names_distinct(ts));
    }
}

/// A pattern that can be read names no variable twice, and one that is readable but for that cannot
/// be read.
pub proof fn lemma_no_variable_twice(p: Seq<char>, ts: Seq<Token>, i: int, j: int, name: Seq<char>)
    requires
        parse(p) == Some(ts),
    ensures
        0 <= i < j < ts.len() && ts[i] == Token::Variable(name) && ts[j] == Token::Variable(name)
            ==> tokens_of(p) is None,
        tokens_of(p) is None ==> exists|a: int, b: int|
            0 <= a < b < ts.len() && (#[trigger] ts[a]) is Variable && ts[a] == #[trigger] ts[b],
        tokens_of(p) is Some ==> tokens_of(p) == Some(ts),
{
    if 0 <= i < j < ts.len() && ts[i] == Token::Variable(name) && ts[j] == Token::Variable(name) {
        assert(ts[i] is Variable && ts[i] == ts[j]);
    }
}

/// The text with which an element is filled in: a literal with its character, a variable with its
/// value.
pub open spec fn filling(t: Token, vars: Map<Seq<char>, String>) -> Seq<char> {
    match t {
        Token::Literal(c) => seq![c],
        Token::Variable(name) => vars[name]@,
        _ => Seq::empty(),
    }
}

/// The elements with the values of the variables in their places.
pub open spec fn filled_in(ts: Seq<Token>, vars: Map<Seq<char>, String>) -> Seq<char>
    decreases ts.len(),
{
    if ts.len() == 0 {
        Seq::empty()
    } else {
        filling(ts[0], vars) + filled_in(ts.drop_first(), vars)
    }
}

proof fn lemma_filled_in(ts: Seq<Token>, vars: Map<Seq<char>, String>, pieces: Seq<Seq<char>>)
    requires
        pieces.len() == ts.len(),
        forall|i: int| 0 <= i < ts.len() ==> filling(#[trigger] ts[i], vars) == pieces[i],
    ensures
        filled_in(ts, vars) == concat(pieces),
    decreases ts.len(),
{
    if ts.len() > 0 {
        let rest = ts.drop_first();
        assert forall|i: int| 0 <= i < rest.len() implies filling(#[trigger] rest[i], vars)
            == pieces.drop_first()[i] by {
            assert(rest[i] == ts[i + 1]);
        }
        lemma_filled_in(rest, vars, pieces.drop_first());
        assert(filling(ts[0], vars) == pieces[0]);
    }
}

/// The values of the variables, put in their places in a pattern of literals and variables, give
/// back the path that they were taken from.
pub proof fn lemma_variables_give_path_back(
    ts: Seq<Token>,
    path: Seq<char>,
    pieces: Seq<Seq<char>>,
    vars: Map<Seq<char>, String>,
)
    requires
        covers_greedily(ts, path, pieces),
        binds(vars, ts, pieces),
        forall|i: int| 0 <= i < ts.len() ==> (#[trigger] ts[i]) is Literal || ts[i] is Variable,
    ensures
        filled_in(ts, vars) == path,
        forall|name: Seq<char>| #[trigger]
            vars.contains_key(name) ==> exists|i: int|
                0 <= i < ts.len() && #[trigger] ts[i] == Token::Variable(name),
{
    assert forall|i: int| 0 <= i < ts.len() implies filling(#[trigger] ts[i], vars)
        == pieces[i] by {
        assert(admits(ts[i], pieces[i]));
    }
    lemma_filled_in(ts, vars, pieces);
    assert forall|name: Seq<char>| #[trigger] vars.contains_key(name) implies exists|i: int|
        0 <= i < ts.len() && #[trigger] ts[i] == Token::Variable(name) by {
        let i = ts.index_of(Token::Variable(name));
        assert(ts[i] == Token::Variable(name));
    }
}

/// A variable in front takes as much as it can: what follows it and can be empty is left nothing of
/// its segment.
pub proof fn lemma_variable_takes_all(
    name: Seq<char>,
    rest: Token,
    path: Seq<char>,
    pieces: Seq<Seq<char>>,
)
    requires
        rest is Star || rest is DoubleStar,
        path.len() > 0,
        !path.contains('/'),
        covers_greedily(seq![Token::Variable(name), rest], path, pieces),
    ensures
        pieces[0] == path,
        pieces[1].len() == 0,
{
    let ts = seq![Token::Variable(name), rest];
    let none = Seq::<char>::empty();
    let all = seq![path, none];
    reveal_with_fuel(concat, 3);
    assert(all.drop_first() =~= seq![none]);
    assert(all.drop_first().drop_first() =~= Seq::<Seq<char>>::empty());
    assert(concat(all) =~= path);
    assert(covers(ts, path, all));
    assert(concat(pieces) == pieces[0] + concat(pieces.drop_first()));
    assert(pieces.drop_first()[0] == pieces[1]);
    assert(pieces.drop_first().drop_first() =~= Seq::<Seq<char>>::empty());
    assert(concat(pieces) =~= pieces[0] + pieces[1]);
    if pieces[0].len() < path.len() {
        assert(all.take(0) =~= pieces.take(0));
        assert(all[0].len() > pieces[0].len());
        assert(longer_first(all, pieces));
    }
    assert(pieces[0] =~= path);
}

} // verus!
