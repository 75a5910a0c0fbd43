//! Character-level text operations, each stated over the sequence of characters that a string
//! holds.
use vstd::prelude::*;
use vstd::string::*;

verus! {

/// The contents of a list of strings.
pub open spec fn texts(list: Seq<String>) -> Seq<Seq<char>> {
    list.map_values(|s: String| s@)
}

/// The contents of an optional string.
pub open spec fn opt_text(s: Option<String>) -> Option<Seq<char>> {
    match s {
        Some(s) => Some(s@),
        None => None,
    }
}

/// Trusted: `String::push` puts a character at the end of the string.
pub assume_specification[ String::push ](s: &mut String, c: char)
    ensures
        final(s)@ == old(s)@.push(c),
;

/// Copies the characters of `s` into a vector, for random access.
pub fn chars_of(s: &str) -> (chars: Vec<char>)
    ensures
        chars@ == s@,
{
    let mut out: Vec<char> = Vec::new();
    for c in it: s.chars()
        invariant
            it.seq() == s@,
            out@ == it.seq().take(it.index() as int),
    {
        out.push(c);
    }
    out
}

/// Whether two strings hold the same characters.
pub fn str_eq(a: &str, b: &str) -> (equal: bool)
    ensures
        equal == (a@ == b@),
{
    a.to_owned() == b.to_owned()
}

/// `a` followed by `b`.
pub fn concat2(a: &str, b: &str) -> (whole: String)
    ensures
        whole@ == a@ + b@,
{
    a.to_owned().concat(b)
}

/// `a`, `b` and `c` in a row.
pub fn concat3(a: &str, b: &str, c: &str) -> (whole: String)
    ensures
        whole@ == a@ + b@ + c@,
{
    a.to_owned().concat(b).concat(c)
}

// ----- prefixes -----

/// `s` begins with `prefix`.
pub open spec fn starts_with(s: Seq<char>, prefix: Seq<char>) -> bool {
    &&& prefix.len() <= s.len()
    &&& s.take(prefix.len() as int) == prefix
}

fn starts_with_at(s: &Vec<char>, at: usize, prefix: &Vec<char>) -> (b: bool)
    requires
        at <= s@.len(),
    ensures
        b == starts_with(s@.skip(at as int), prefix@),
{
    if prefix.len() > s.len() - at {
        return false;
    }
    let len: usize = s.len();
    let mut i: usize = 0;
    while i < prefix.len()
        invariant
            len == s@.len(),
            at <= len,
            prefix@.len() <= len - at,
            i <= prefix@.len(),
            forall|k: int| 0 <= k < i ==> s@[at + k] == prefix@[k],
        decreases prefix@.len() - i,
    {
        if s[at + i] != prefix[i] {
            assert(s@.skip(at as int).take(prefix@.len() as int)[i as int] != prefix@[i as int]);
            return false;
        }
        i = i + 1;
    }
    assert(s@.skip(at as int).take(prefix@.len() as int) =~= prefix@);
    true
}

/// Whether `s` begins with `prefix`.
pub fn has_prefix(s: &str, prefix: &str) -> (b: bool)
    ensures
        b == starts_with(s@, prefix@),
{
    let cs = chars_of(s);
    let ps = chars_of(prefix);
    assert(cs@.skip(0) =~= cs@);
    starts_with_at(&cs, 0, &ps)
}

/// What follows `prefix` in `s`, where `s` begins with it.
pub open spec fn strip_prefix_spec(s: Seq<char>, prefix: Seq<char>) -> Option<Seq<char>> {
    if starts_with(s, prefix) {
        Some(s.skip(prefix.len() as int))
    } else {
        None
    }
}

/// What follows `prefix` in `s`, where `s` begins with it.
pub fn without_prefix(s: &str, prefix: &str) -> (rest: Option<String>)
    ensures
        opt_text(rest) == strip_prefix_spec(s@, prefix@),
{
    if has_prefix(s, prefix) {
        let n: usize = prefix.unicode_len();
        let len: usize = s.unicode_len();
        let rest = s.substring_char(n, len).to_owned();
        assert(rest@ =~= s@.skip(prefix@.len() as int));
        Some(rest)
    } else {
        None
    }
}

/// `s` without any number of copies of `prefix` at its front.
pub open spec fn strip_repeated(s: Seq<char>, prefix: Seq<char>) -> Seq<char>
    decreases s.len(),
{
    if prefix.len() > 0 && starts_with(s, prefix) {
        strip_repeated(s.skip(prefix.len() as int), prefix)
    } else {
        s
    }
}

/// `s` without any number of copies of `prefix` at its front.
pub fn without_repeated_prefix(s: &str, prefix: &str) -> (rest: String)
    ensures
        rest@ == strip_repeated(s@, prefix@),
{
    let cs = chars_of(s);
    let ps = chars_of(prefix);
    let len: usize = cs.len();
    let mut at: usize = 0;
    assert(cs@.skip(0) =~= cs@);
    while ps.len() > 0 && starts_with_at(&cs, at, &ps)
        invariant
            cs@ == s@,
            ps@ == prefix@,
            len == cs@.len(),
            at <= len,
            strip_repeated(s@, prefix@) == strip_repeated(cs@.skip(at as int), prefix@),
        decreases cs@.len() - at,
    {
        assert(cs@.skip(at as int).skip(ps@.len() as int) =~= cs@.skip(at + ps@.len()));
        at = at + ps.len();
    }
    let rest = s.substring_char(at, cs.len()).to_owned();
    assert(rest@ =~= cs@.skip(at as int));
    rest
}

/// `part` occurs somewhere in `s`.
pub open spec fn contains_text(s: Seq<char>, part: Seq<char>) -> bool {
    exists|at: int| 0 <= at <= s.len() && starts_with(#[trigger] s.skip(at), part)
}

/// Whether `part` occurs somewhere in `s`.
pub fn has_text(s: &str, part: &str) -> (b: bool)
    ensures
        b == contains_text(s@, part@),
{
    let cs = chars_of(s);
    let ps = chars_of(part);
    let len: usize = cs.len();
    let mut at: usize = 0;
    loop
        invariant
            cs@ == s@,
            ps@ == part@,
            len == s@.len(),
            at <= len,
            forall|k: int| 0 <= k < at ==> !starts_with(#[trigger] s@.skip(k), part@),
        decreases len - at,
    {
        if starts_with_at(&cs, at, &ps) {
            assert(starts_with(s@.skip(at as int), part@));
            return true;
        }
        if at == len {
            return false;
        }
        at = at + 1;
    }
}

// ----- single characters -----

/// Whether `c` occurs in `s`.
pub fn has_char(s: &str, c: char) -> (b: bool)
    ensures
        b == s@.contains(c),
{
    let cs = chars_of(s);
    let mut i: usize = 0;
    while i < cs.len()
        invariant
            cs@ == s@,
            i <= cs@.len(),
            forall|k: int| 0 <= k < i ==> cs@[k] != c,
        decreases cs@.len() - i,
    {
        if cs[i] == c {
            assert(s@[i as int] == c);
            return true;
        }
        i = i + 1;
    }
    false
}

/// `at` is the position of the last `c` in `s`.
pub open spec fn is_last_index(s: Seq<char>, c: char, at: int) -> bool {
    &&& 0 <= at < s.len()
    &&& s[at] == c
    &&& forall|k: int| at < k < s.len() ==> s[k] != c
}

/// The position of the last `c` in `s`, counted in characters.
pub fn last_index(s: &str, c: char) -> (at: Option<usize>)
    ensures
        match at {
            Some(i) => is_last_index(s@, c, i as int),
            None => !s@.contains(c),
        },
{
    let cs = chars_of(s);
    let mut i: usize = cs.len();
    while i > 0
        invariant
            cs@ == s@,
            i <= cs@.len(),
            forall|k: int| i <= k < cs@.len() ==> cs@[k] != c,
        decreases i,
    {
        i = i - 1;
        if cs[i] == c {
            return Some(i);
        }
    }
    None
}

/// What stands in `s` before the first `c`; all of it where `c` does not occur.
pub open spec fn before_first(s: Seq<char>, c: char) -> Seq<char>
    decreases s.len(),
{
    if s.len() == 0 || s[0] == c {
        Seq::empty()
    } else {
        seq![s[0]] + before_first(s.drop_first(), c)
    }
}

/// `before_first` is the prefix of `s` that ends at its first `c`.
pub proof fn lemma_before_first(s: Seq<char>, c: char, n: int)
    requires
        0 <= n <= s.len(),
        forall|k: int| 0 <= k < n ==> s[k] != c,
        n == s.len() || s[n] == c,
    ensures
        before_first(s, c) == s.take(n),
    decreases s.len(),
{
    if n == 0 {
        assert(s.take(0) =~= Seq::<char>::empty());
    } else {
        lemma_before_first(s.drop_first(), c, n - 1);
        assert(seq![s[0]] + s.drop_first().take(n - 1) =~= s.take(n));
    }
}

/// What stands before the first `c` is followed by it, or is all there is.
pub proof fn lemma_before_first_ends(s: Seq<char>, c: char)
    ensures
        before_first(s, c).len() <= s.len(),
        s.take(before_first(s, c).len() as int) == before_first(s, c),
        before_first(s, c).len() < s.len() ==> s[before_first(s, c).len() as int] == c,
    decreases s.len(),
{
    if s.len() > 0 && s[0] != c {
        let tail = s.drop_first();
        lemma_before_first_ends(tail, c);
        let n = before_first(tail, c).len() as int;
        assert(s.take(n + 1) =~= seq![s[0]] + tail.take(n));
    } else {
        assert(s.take(0) =~= Seq::<char>::empty());
    }
}

/// What stands in `s` before the first `c`; all of it where `c` does not occur.
pub fn text_before(s: &str, c: char) -> (head: String)
    ensures
        head@ == before_first(s@, c),
{
    let cs = chars_of(s);
    let mut i: usize = 0;
    while i < cs.len() && cs[i] != c
        invariant
            cs@ == s@,
            i <= cs@.len(),
            forall|k: int| 0 <= k < i ==> cs@[k] != c,
        decreases cs@.len() - i,
    {
        i = i + 1;
    }
    proof {
        lemma_before_first(s@, c, i as int);
    }
    let head = s.substring_char(0, i).to_owned();
    assert(head@ =~= s@.take(i as int));
    head
}

// ----- white space -----

/// The characters with the Unicode property `White_Space`.
pub open spec fn is_white_space(c: char) -> bool {
    let u = c as u32;
    ||| 0x9 <= u <= 0xd
    ||| u == 0x20
    ||| u == 0x85
    ||| u == 0xa0
    ||| u == 0x1680
    ||| 0x2000 <= u <= 0x200a
    ||| u == 0x2028
    ||| u == 0x2029
    ||| u == 0x202f
    ||| u == 0x205f
    ||| u == 0x3000
}

fn char_is_white_space(c: char) -> (b: bool)
    ensures
        b == is_white_space(c),
{
    let u: u32 = c as u32;
    (0x9 <= u && u <= 0xd) || u == 0x20 || u == 0x85 || u == 0xa0 || u == 0x1680 || (0x2000 <= u
        && u <= 0x200a) || u == 0x2028 || u == 0x2029 || u == 0x202f || u == 0x205f || u == 0x3000
}

/// `s` without the white space at its front.
pub open spec fn trim_front(s: Seq<char>) -> Seq<char>
    decreases s.len(),
{
    if s.len() > 0 && is_white_space(s[0]) {
        trim_front(s.drop_first())
    } else {
        s
    }
}

/// `s` without the white space at its end.
pub open spec fn trim_back(s: Seq<char>) -> Seq<char>
    decreases s.len(),
{
    if s.len() > 0 && is_white_space(s.last()) {
        trim_back(s.drop_last())
    } else {
        s
    }
}

/// `s` without the white space at either end.
pub open spec fn trim(s: Seq<char>) -> Seq<char> {
    trim_back(trim_front(s))
}

/// Whether `s` is empty or white space throughout.
pub open spec fn is_blank(s: Seq<char>) -> bool {
    forall|i: int| 0 <= i < s.len() ==> is_white_space(#[trigger] s[i])
}

/// A string is blank exactly where nothing is left of it after trimming.
pub proof fn lemma_blank_iff_trims_to_empty(s: Seq<char>)
    ensures
        is_blank(s) <==> trim(s).len() == 0,
{
    lemma_trim_front_blank(s);
    let t = trim_front(s);
    if t.len() > 0 {
        lemma_trim_front_first(s);
        lemma_trim_back_keeps(t);
    }
}

proof fn lemma_trim_front_blank(s: Seq<char>)
    ensures
        is_blank(s) <==> trim_front(s).len() == 0,
    decreases s.len(),
{
    if s.len() > 0 && is_white_space(s[0]) {
        lemma_trim_front_blank(s.drop_first());
        assert(is_blank(s) <==> is_blank(s.drop_first())) by {
            assert(forall|i: int| 0 < i < s.len() ==> s[i] == s.drop_first()[i - 1]);
            if is_blank(s) {
                assert forall|i: int| 0 <= i < s.drop_first().len() implies is_white_space(
                    #[trigger] s.drop_first()[i],
                ) by {
                    assert(is_white_space(s[i + 1]));
                }
            }
        }
    } else if s.len() > 0 {
        assert(!is_white_space(s[0]));
    }
}

proof fn lemma_trim_front_first(s: Seq<char>)
    requires
        trim_front(s).len() > 0,
    ensures
        !is_white_space(trim_front(s)[0]),
    decreases s.len(),
{
    if s.len() > 0 && is_white_space(s[0]) {
        lemma_trim_front_first(s.drop_first());
    }
}

proof fn lemma_trim_back_keeps(s: Seq<char>)
    requires
        s.len() > 0,
        !is_white_space(s[0]),
    ensures
        trim_back(s).len() > 0,
    decreases s.len(),
{
    if is_white_space(s.last()) {
        lemma_trim_back_keeps(s.drop_last());
    }
}

/// Whether `s` is empty or white space throughout.
pub fn is_blank_text(s: &str) -> (b: bool)
    ensures
        b == is_blank(s@),
{
    let cs = chars_of(s);
    let mut i: usize = 0;
    while i < cs.len()
        invariant
            cs@ == s@,
            i <= cs@.len(),
            forall|k: int| 0 <= k < i ==> is_white_space(#[trigger] cs@[k]),
        decreases cs@.len() - i,
    {
        if !char_is_white_space(cs[i]) {
            assert(!is_white_space(s@[i as int]));
            return false;
        }
        i = i + 1;
    }
    true
}

/// `s` without the white space at either end.
pub fn trimmed(s: &str) -> (t: String)
    ensures
        t@ == trim(s@),
{
    let cs = chars_of(s);
    let mut a: usize = 0;
    assert(s@.skip(0) =~= s@);
    while a < cs.len() && char_is_white_space(cs[a])
        invariant
            cs@ == s@,
            a <= cs@.len(),
            trim_front(s@) == trim_front(s@.skip(a as int)),
        decreases cs@.len() - a,
    {
        assert(s@.skip(a as int).drop_first() =~= s@.skip(a + 1));
        a = a + 1;
    }
    let ghost front = s@.skip(a as int);
    assert(trim_front(s@) == front);
    let mut b: usize = cs.len();
    assert(front.take(b - a) =~= front);
    while b > a && char_is_white_space(cs[b - 1])
        invariant
            cs@ == s@,
            a <= b <= cs@.len(),
            front == s@.skip(a as int),
            trim_back(front) == trim_back(front.take(b - a)),
        decreases b,
    {
        assert(front.take(b - a).drop_last() =~= front.take(b - 1 - a));
        b = b - 1;
    }
    let t = s.substring_char(a, b).to_owned();
    assert(t@ =~= front.take(b - a));
    t
}

// ----- splitting and joining -----

/// The pieces of `s` between the occurrences of `sep`; there is always at least one.
pub open spec fn split(s: Seq<char>, sep: char) -> Seq<Seq<char>>
    decreases s.len(),
{
    if s.len() == 0 {
        seq![Seq::<char>::empty()]
    } else {
        let rest = split(s.drop_first(), sep);
        if s[0] == sep {
            seq![Seq::<char>::empty()] + rest
        } else {
            rest.update(0, seq![s[0]] + rest[0])
        }
    }
}

/// The pieces of `parts` in a row, with `sep` between any two.
pub open spec fn join(parts: Seq<Seq<char>>, sep: Seq<char>) -> Seq<char>
    decreases parts.len(),
{
    if parts.len() == 0 {
        Seq::empty()
    } else if parts.len() == 1 {
        parts[0]
    } else {
        join(parts.drop_last(), sep) + sep + parts.last()
    }
}

/// There is always at least one piece.
pub proof fn lemma_split_nonempty(s: Seq<char>, sep: char)
    ensures
        split(s, sep).len() >= 1,
    decreases s.len(),
{
    if s.len() > 0 {
        lemma_split_nonempty(s.drop_first(), sep);
    }
}

/// Splitting at the first separator: the piece before it, then the pieces of what follows it.
pub proof fn lemma_split_step(s: Seq<char>, sep: char, n: int)
    requires
        0 <= n < s.len(),
        s[n] == sep,
        forall|k: int| 0 <= k < n ==> s[k] != sep,
    ensures
        split(s, sep) == seq![s.take(n)] + split(s.skip(n + 1), sep),
    decreases s.len(),
{
    let tail = s.drop_first();
    if n == 0 {
        assert(s.take(0) =~= Seq::<char>::empty());
        assert(s.skip(1) =~= tail);
    } else {
        lemma_split_step(tail, sep, n - 1);
        lemma_split_nonempty(tail, sep);
        assert(tail.skip(n) =~= s.skip(n + 1));
        assert(seq![s[0]] + tail.take(n - 1) =~= s.take(n));
        assert(split(s, sep) =~= seq![s.take(n)] + split(s.skip(n + 1), sep));
    }
}

/// No piece holds the separator.
pub proof fn lemma_split_pieces(s: Seq<char>, sep: char, i: int)
    requires
        0 <= i < split(s, sep).len(),
    ensures
        !split(s, sep)[i].contains(sep),
    decreases s.len(),
{
    if s.len() > 0 {
        let tail = s.drop_first();
        let rest = split(tail, sep);
        lemma_split_nonempty(tail, sep);
        if s[0] == sep {
            if i > 0 {
                lemma_split_pieces(tail, sep, i - 1);
            }
        } else {
            lemma_split_pieces(tail, sep, i);
            if i == 0 {
                let piece = seq![s[0]] + rest[0];
                if piece.contains(sep) {
                    let k = piece.index_of(sep);
                    assert(rest[0][k - 1] == sep);
                }
            }
        }
    }
}

/// A string without a separator is its own single piece.
pub proof fn lemma_split_whole(s: Seq<char>, sep: char)
    requires
        !s.contains(sep),
    ensures
        split(s, sep) == seq![s],
    decreases s.len(),
{
    if s.len() > 0 {
        let tail = s.drop_first();
        assert(s.contains(s[0]));
        assert forall|i: int| 0 <= i < tail.len() implies tail[i] != sep by {
            assert(s.contains(s[i + 1]));
        }
        lemma_split_whole(tail, sep);
        assert(seq![s[0]] + tail =~= s);
        assert(split(s, sep) =~= seq![s]);
    } else {
        assert(s =~= Seq::<char>::empty());
    }
}

/// The pieces of `s` between the occurrences of `sep`.
pub fn split_text(s: &str, sep: char) -> (pieces: Vec<String>)
    ensures
        texts(pieces@) == split(s@, sep),
        pieces@.len() >= 1,
{
    let cs = chars_of(s);
    let len: usize = cs.len();
    let mut pieces: Vec<String> = Vec::new();
    let mut from: usize = 0;
    let mut i: usize = 0;
    assert(s@.skip(0) =~= s@);
    assert(texts(pieces@) + split(s@, sep) =~= split(s@, sep));
    while i < len
        invariant
            cs@ == s@,
            len == s@.len(),
            from <= i <= len,
            forall|k: int| from <= k < i ==> s@[k] != sep,
            split(s@, sep) == texts(pieces@) + split(s@.skip(from as int), sep),
        decreases len - i,
    {
        if cs[i] == sep {
            let piece = s.substring_char(from, i).to_owned();
            proof {
                let rest = s@.skip(from as int);
                lemma_split_step(rest, sep, i - from);
                assert(piece@ =~= rest.take(i - from));
                assert(rest.skip(i - from + 1) =~= s@.skip(i + 1));
                assert(texts(pieces@.push(piece)) =~= texts(pieces@).push(piece@));
                assert(texts(pieces@) + (seq![piece@] + split(s@.skip(i + 1), sep)) =~= texts(
                    pieces@,
                ).push(piece@) + split(s@.skip(i + 1), sep));
            }
            pieces.push(piece);
            from = i + 1;
        }
        i = i + 1;
    }
    let piece = s.substring_char(from, len).to_owned();
    proof {
        let rest = s@.skip(from as int);
        assert(piece@ =~= rest);
        assert(!rest.contains(sep));
        lemma_split_whole(rest, sep);
        assert(texts(pieces@.push(piece)) =~= texts(pieces@) + seq![piece@]);
    }
    pieces.push(piece);
    pieces
}

/// The strings of `parts` in a row, with `sep` between any two.
pub fn join_texts(parts: &Vec<String>, sep: &str) -> (whole: String)
    ensures
        whole@ == join(texts(parts@), sep@),
{
    let mut whole = String::new();
    let mut i: usize = 0;
    assert(texts(parts@).take(0) =~= Seq::<Seq<char>>::empty());
    while i < parts.len()
        invariant
            i <= parts@.len(),
            whole@ == join(texts(parts@).take(i as int), sep@),
        decreases parts@.len() - i,
    {
        proof {
            let next = texts(parts@).take(i + 1);
            assert(next.drop_last() =~= texts(parts@).take(i as int));
            assert(next.last() == parts@[i as int]@);
        }
        if i > 0 {
            whole.append(sep);
        }
        whole.append(parts[i].as_str());
        proof {
            if i == 0 {
                assert(whole@ =~= parts@[0]@);
            }
        }
        i = i + 1;
    }
    assert(texts(parts@).take(i as int) =~= texts(parts@));
    whole
}

/// Joining the pieces with the separator gives the string back.
pub proof fn lemma_join_split(s: Seq<char>, sep: char)
    ensures
        join(split(s, sep), seq![sep]) == s,
    decreases s.len(),
{
    if s.len() > 0 {
        let tail = s.drop_first();
        let rest = split(tail, sep);
        lemma_join_split(tail, sep);
        lemma_split_nonempty(tail, sep);
        if s[0] == sep {
            lemma_join_cons(Seq::<char>::empty(), rest, seq![sep]);
            assert(Seq::<char>::empty() + seq![sep] + tail =~= s);
        } else {
            lemma_join_extend_first(rest, seq![s[0]], seq![sep]);
            assert(seq![s[0]] + tail =~= s);
        }
    } else {
        assert(s =~= Seq::<char>::empty());
    }
}

proof fn lemma_join_cons(head: Seq<char>, rest: Seq<Seq<char>>, sep: Seq<char>)
    requires
        rest.len() >= 1,
    ensures
        join(seq![head] + rest, sep) == head + sep + join(rest, sep),
    decreases rest.len(),
{
    let all = seq![head] + rest;
    assert(all.drop_last() =~= seq![head] + rest.drop_last());
    assert(all.last() == rest.last());
    if rest.len() == 1 {
        assert(all.drop_last() =~= seq![head]);
        assert(join(seq![head], sep) == head);
    } else {
        lemma_join_cons(head, rest.drop_last(), sep);
        assert(head + sep + join(rest.drop_last(), sep) + sep + rest.last() =~= head + sep + (join(
            rest.drop_last(),
            sep,
        ) + sep + rest.last()));
    }
}

proof fn lemma_join_extend_first(parts: Seq<Seq<char>>, front: Seq<char>, sep: Seq<char>)
    requires
        parts.len() >= 1,
    ensures
        join(parts.update(0, front + parts[0]), sep) == front + join(parts, sep),
    decreases parts.len(),
{
    let changed = parts.update(0, front + parts[0]);
    if parts.len() > 1 {
        assert(changed.drop_last() =~= parts.drop_last().update(0, front + parts.drop_last()[0]));
        lemma_join_extend_first(parts.drop_last(), front, sep);
        assert(front + join(parts.drop_last(), sep) + sep + parts.last() =~= front + (join(
            parts.drop_last(),
            sep,
        ) + sep + parts.last()));
    }
}

// ----- replacing -----

/// `s` with each occurrence of `from` replaced by `to`, found from left to right.
pub open spec fn replace_all(s: Seq<char>, from: Seq<char>, to: Seq<char>) -> Seq<char>
    decreases s.len(),
{
    if s.len() == 0 {
        Seq::empty()
    } else if from.len() > 0 && starts_with(s, from) {
        to + replace_all(s.skip(from.len() as int), from, to)
    } else {
        seq![s[0]] + replace_all(s.drop_first(), from, to)
    }
}

/// `s` with each occurrence of `from` replaced by `to`, found from left to right.
pub fn replaced(s: &str, from: &str, to: &str) -> (r: String)
    requires
        from@.len() > 0,
    ensures
        r@ == replace_all(s@, from@, to@),
{
    let cs = chars_of(s);
    let fs = chars_of(from);
    let len: usize = cs.len();
    let mut out = String::new();
    let mut i: usize = 0;
    assert(s@.skip(0) =~= s@);
    assert(out@ + replace_all(s@, from@, to@) =~= replace_all(s@, from@, to@));
    while i < len
        invariant
            cs@ == s@,
            fs@ == from@,
            from@.len() > 0,
            len == s@.len(),
            i <= len,
            replace_all(s@, from@, to@) == out@ + replace_all(s@.skip(i as int), from@, to@),
        decreases len - i,
    {
        let ghost before = out@;
        if starts_with_at(&cs, i, &fs) {
            out.append(to);
            proof {
                let rest = s@.skip(i as int).skip(from@.len() as int);
                assert(rest =~= s@.skip(i + from@.len()));
                assert(before + (to@ + replace_all(rest, from@, to@)) =~= out@ + replace_all(
                    rest,
                    from@,
                    to@,
                ));
            }
            i = i + fs.len();
        } else {
            out.append(s.substring_char(i, i + 1));
            proof {
                let rest = s@.skip(i as int).drop_first();
                assert(rest =~= s@.skip(i + 1));
                assert(s@.subrange(i as int, i + 1) =~= seq![s@[i as int]]);
                assert(before + (seq![s@[i as int]] + replace_all(rest, from@, to@)) =~= out@
                    + replace_all(rest, from@, to@));
            }
            i = i + 1;
        }
    }
    assert(s@.skip(len as int) =~= Seq::<char>::empty());
    assert(out@ + Seq::<char>::empty() =~= out@);
    out
}

// ----- ASCII case -----

/// The lower-case form of an ASCII letter; any other character itself.
pub open spec fn ascii_lower(c: char) -> char {
    if 'A' <= c <= 'Z' {
        ((c as u8) + 32) as char
    } else {
        c
    }
}

/// The two texts agree, apart from the case of ASCII letters.
pub open spec fn eq_ignore_ascii_case(a: Seq<char>, b: Seq<char>) -> bool {
    &&& a.len() == b.len()
    &&& forall|i: int| 0 <= i < a.len() ==> ascii_lower(#[trigger] a[i]) == ascii_lower(b[i])
}

fn char_ascii_lower(c: char) -> (l: char)
    ensures
        l == ascii_lower(c),
{
    if 'A' <= c && c <= 'Z' {
        (c as u8 + 32) as char
    } else {
        c
    }
}

/// Whether the two texts agree, apart from the case of ASCII letters.
pub fn same_ignoring_case(a: &str, b: &str) -> (same: bool)
    ensures
        same == eq_ignore_ascii_case(a@, b@),
{
    let x = chars_of(a);
    let y = chars_of(b);
    if x.len() != y.len() {
        return false;
    }
    let mut i: usize = 0;
    while i < x.len()
        invariant
            x@ == a@,
            y@ == b@,
            x@.len() == y@.len(),
            i <= x@.len(),
            forall|k: int| 0 <= k < i ==> ascii_lower(#[trigger] a@[k]) == ascii_lower(b@[k]),
        decreases x@.len() - i,
    {
        if char_ascii_lower(x[i]) != char_ascii_lower(y[i]) {
            assert(ascii_lower(a@[i as int]) != ascii_lower(b@[i as int]));
            return false;
        }
        i = i + 1;
    }
    true
}

// ----- numbers -----

/// The character of a decimal digit.
pub open spec fn digit(d: nat) -> char
    recommends
        d < 10,
{
    ('0' as u32 + d) as char
}

/// `n` in decimal, without leading zeros.
pub open spec fn decimal(n: nat) -> Seq<char>
    decreases n,
{
    if n < 10 {
        seq![digit(n)]
    } else {
        decimal(n / 10).push(digit(n % 10))
    }
}

fn digit_text(d: u64) -> (t: &'static str)
    requires
        d < 10,
    ensures
        t@ == seq![digit(d as nat)],
{
    proof {
        reveal_strlit("0");
        reveal_strlit("1");
        reveal_strlit("2");
        reveal_strlit("3");
        reveal_strlit("4");
        reveal_strlit("5");
        reveal_strlit("6");
        reveal_strlit("7");
        reveal_strlit("8");
        reveal_strlit("9");
    }
    let t = match d {
        0 => "0",
        1 => "1",
        2 => "2",
        3 => "3",
        4 => "4",
        5 => "5",
        6 => "6",
        7 => "7",
        8 => "8",
        _ => "9",
    };
    assert(t@ =~= seq![digit(d as nat)]);
    t
}

/// `n` in decimal.
pub fn decimal_text(n: u64) -> (t: String)
    ensures
        t@ == decimal(n as nat),
    decreases n,
{
    if n < 10 {
        digit_text(n).to_owned()
    } else {
        let mut t = decimal_text(n / 10);
        t.append(digit_text(n % 10));
        assert(t@ =~= decimal((n / 10) as nat).push(digit((n % 10) as nat)));
        t
    }
}

/// `n` in decimal, with a minus sign where it is negative.
pub open spec fn signed_decimal(n: int) -> Seq<char> {
    if n < 0 {
        seq!['-'] + decimal((-n) as nat)
    } else {
        decimal(n as nat)
    }
}

/// `n` in decimal, with a minus sign where it is negative.
pub fn signed_decimal_text(n: i64) -> (t: String)
    ensures
        t@ == signed_decimal(n as int),
{
    if n < 0 {
        proof {
            reveal_strlit("-");
            assert("-"@ =~= seq!['-']);
        }
        let magnitude: u64 = if n == i64::MIN {
            0x8000_0000_0000_0000
        } else {
            (-n) as u64
        };
        concat2("-", decimal_text(magnitude).as_str())
    } else {
        decimal_text(n as u64)
    }
}

/// Whether `s` holds decimal digits only.
pub open spec fn all_digits(s: Seq<char>) -> bool {
    forall|i: int| 0 <= i < s.len() ==> '0' <= #[trigger] s[i] <= '9'
}

/// The number that a sequence of digits writes in decimal.
pub open spec fn digits_value(s: Seq<char>) -> nat
    decreases s.len(),
{
    if s.len() == 0 {
        0
    } else {
        digits_value(s.drop_last()) * 10 + (s.last() as nat - '0' as nat) as nat
    }
}

/// The number written by `s`: an optional plus sign, then digits only, at least one, with a value
/// below 2^32.
pub open spec fn parse_u32(s: Seq<char>) -> Option<u32> {
    let digits = if s.len() > 0 && s[0] == '+' {
        s.drop_first()
    } else {
        s
    };
    if digits.len() > 0 && all_digits(digits) && digits_value(digits) <= u32::MAX {
        Some(digits_value(digits) as u32)
    } else {
        None
    }
}

proof fn lemma_digits_value_grows(s: Seq<char>, n: int)
    requires
        0 <= n <= s.len(),
    ensures
        digits_value(s.take(n)) <= digits_value(s),
    decreases s.len(),
{
    if n == s.len() {
        assert(s.take(n) =~= s);
    } else {
        lemma_digits_value_grows(s.drop_last(), n);
        assert(s.drop_last().take(n) =~= s.take(n));
    }
}

/// The number that `s` writes in decimal, if it is one below 2^32.
pub fn number_of(s: &str) -> (n: Option<u32>)
    ensures
        n == parse_u32(s@),
{
    let cs = chars_of(s);
    let len: usize = cs.len();
    let from: usize = if len > 0 && cs[0] == '+' {
        1
    } else {
        0
    };
    let ghost digits = s@.skip(from as int);
    proof {
        assert(s@.skip(0) =~= s@);
        assert(from == 1 ==> s@.skip(1) =~= s@.drop_first());
    }
    if from == len {
        return None;
    }
    let mut value: u64 = 0;
    let mut i: usize = from;
    assert(digits.take(0) =~= Seq::<char>::empty());
    while i < len
        invariant
            cs@ == s@,
            len == s@.len(),
            from <= i <= len,
            digits == s@.skip(from as int),
            digits == (if s@.len() > 0 && s@[0] == '+' { s@.drop_first() } else { s@ }),
            value <= u32::MAX,
            value == digits_value(digits.take(i - from)),
            forall|k: int| 0 <= k < i - from ==> '0' <= #[trigger] digits[k] <= '9',
        decreases len - i,
    {
        let c = cs[i];
        assert(digits[i - from] == c);
        if !('0' <= c && c <= '9') {
            return None;
        }
        proof {
            let next = digits.take(i + 1 - from);
            assert(next.drop_last() =~= digits.take(i - from));
            assert(next.last() == c);
        }
        value = value * 10 + (c as u64 - '0' as u64);
        if value > 0xffff_ffff {
            proof {
                lemma_digits_value_grows(digits, i + 1 - from);
            }
            return None;
        }
        i = i + 1;
    }
    assert(digits.take(len - from) =~= digits);
    Some(value as u32)
}

// ----- lists without repetition -----

/// The elements of `list` in the order of their first occurrence, each once.
pub open spec fn distinct(list: Seq<Seq<char>>) -> Seq<Seq<char>>
    decreases list.len(),
{
    if list.len() == 0 {
        Seq::empty()
    } else {
        let rest = distinct(list.drop_last());
        if rest.contains(list.last()) {
            rest
        } else {
            rest.push(list.last())
        }
    }
}

/// `distinct` keeps every element, adds none, and repeats none.
pub proof fn lemma_distinct(list: Seq<Seq<char>>)
    ensures
        distinct(list).no_duplicates(),
        forall|t: Seq<char>| #[trigger] distinct(list).contains(t) <==> list.contains(t),
    decreases list.len(),
{
    if list.len() > 0 {
        let front = list.drop_last();
        let rest = distinct(front);
        lemma_distinct(front);
        assert forall|t: Seq<char>| #[trigger] distinct(list).contains(t) <==> list.contains(t) by {
            if list.contains(t) {
                let i = list.index_of(t);
                if i < front.len() {
                    assert(front[i] == t);
                    assert(rest.contains(t));
                } else {
                    assert(t == list.last());
                }
            }
            if front.contains(t) {
                let i = front.index_of(t);
                assert(list[i] == t);
            }
            if rest.contains(t) {
                let i = rest.index_of(t);
                assert(distinct(list)[i] == t);
            }
            assert(list[list.len() - 1] == list.last());
            if !rest.contains(list.last()) {
                let grown = rest.push(list.last());
                assert(grown[grown.len() - 1] == list.last());
            }
        }
    }
}

/// Whether `s` is among the strings of `list`.
pub fn lists(list: &Vec<String>, s: &str) -> (b: bool)
    ensures
        b == texts(list@).contains(s@),
{
    let mut i: usize = 0;
    while i < list.len()
        invariant
            i <= list@.len(),
            forall|k: int| 0 <= k < i ==> (#[trigger] list@[k])@ != s@,
        decreases list@.len() - i,
    {
        if str_eq(list[i].as_str(), s) {
            assert(texts(list@)[i as int] == s@);
            return true;
        }
        i = i + 1;
    }
    proof {
        if texts(list@).contains(s@) {
            let k = texts(list@).index_of(s@);
            assert(list@[k]@ == s@);
        }
    }
    false
}

/// Adds `s` to the end of `list` unless it is there already.
pub fn push_distinct(list: &mut Vec<String>, s: &str)
    ensures
        texts(final(list)@) == (if texts(old(list)@).contains(s@) {
            texts(old(list)@)
        } else {
            texts(old(list)@).push(s@)
        }),
{
    if !lists(list, s) {
        list.push(s.to_owned());
        assert(texts(list@) =~= texts(old(list)@).push(s@));
    }
}

// ----- laws -----

/// A text begins with a prefix exactly where it is the prefix with something behind it, and
/// stripping the prefix gives back just that.
pub proof fn lemma_prefix_and_rest(s: Seq<char>, prefix: Seq<char>, rest: Seq<char>)
    ensures
        starts_with(prefix + rest, prefix),
        strip_prefix_spec(prefix + rest, prefix) == Some(rest),
        starts_with(s, prefix) <==> prefix.len() <= s.len() && forall|k: int|
            0 <= k < prefix.len() ==> #[trigger] s[k] == prefix[k],
        match strip_prefix_spec(s, prefix) {
            Some(left) => s == prefix + left,
            None => !starts_with(s, prefix),
        },
{
    let whole = prefix + rest;
    assert(whole.take(prefix.len() as int) =~= prefix);
    assert(whole.skip(prefix.len() as int) =~= rest);
    if starts_with(s, prefix) {
        assert(s =~= prefix + s.skip(prefix.len() as int));
        assert forall|k: int| 0 <= k < prefix.len() implies #[trigger] s[k] == prefix[k] by {
            assert(s.take(prefix.len() as int)[k] == prefix[k]);
        }
    }
    if prefix.len() <= s.len() && forall|k: int|
        0 <= k < prefix.len() ==> #[trigger] s[k] == prefix[k] {
        assert(s.take(prefix.len() as int) =~= prefix);
    }
}

/// Stripping a prefix as often as it stands there: one more copy in front makes no difference, none
/// is left afterwards, and a text that does not begin with it stays whole.
pub proof fn lemma_strip_repeated(s: Seq<char>, prefix: Seq<char>)
    requires
        prefix.len() > 0,
    ensures
        strip_repeated(prefix + s, prefix) == strip_repeated(s, prefix),
        !starts_with(strip_repeated(s, prefix), prefix),
        !starts_with(s, prefix) ==> strip_repeated(s, prefix) == s,
    decreases s.len(),
{
    lemma_prefix_and_rest(s, prefix, s);
    assert((prefix + s).skip(prefix.len() as int) =~= s);
    if starts_with(s, prefix) {
        lemma_strip_repeated(s.skip(prefix.len() as int), prefix);
    }
}

/// The ASCII characters that count as white space.
pub proof fn lemma_ascii_white_space(c: char)
    requires
        (c as u32) < 128,
    ensures
        is_white_space(c) <==> c == ' ' || c == '\t' || c == '\n' || c == '\r' || c == '\u{b}' || c
            == '\u{c}',
{
}

/// Beyond ASCII, white space is what Unicode counts as such: the next line, the spaces of all kinds
/// and widths, and the separators of lines and paragraphs.
pub proof fn lemma_wide_white_space(c: char)
    requires
        c as u32 >= 128,
    ensures
        is_white_space(c) <==> {
            ||| c == '\u{85}' || c == '\u{a0}' || c == '\u{1680}'
            ||| '\u{2000}' <= c <= '\u{200a}'
            ||| c == '\u{2028}' || c == '\u{2029}' || c == '\u{202f}'
            ||| c == '\u{205f}' || c == '\u{3000}'
        },
{
}

proof fn lemma_trim_front_behind(blank: Seq<char>, t: Seq<char>)
    requires
        is_blank(blank),
        t.len() == 0 || !is_white_space(t[0]),
    ensures
        trim_front(blank + t) == t,
    decreases blank.len(),
{
    let whole = blank + t;
    if blank.len() == 0 {
        assert(whole =~= t);
    } else {
        assert(is_white_space(blank[0]));
        assert(whole.drop_first() =~= blank.drop_first() + t);
        assert forall|i: int| 0 <= i < blank.drop_first().len() implies is_white_space(
            #[trigger] blank.drop_first()[i],
        ) by {
            assert(is_white_space(blank[i + 1]));
        }
        lemma_trim_front_behind(blank.drop_first(), t);
    }
}

proof fn lemma_trim_back_before(t: Seq<char>, blank: Seq<char>)
    requires
        is_blank(blank),
        t.len() == 0 || !is_white_space(t.last()),
    ensures
        trim_back(t + blank) == t,
    decreases blank.len(),
{
    let whole = t + blank;
    if blank.len() == 0 {
        assert(whole =~= t);
    } else {
        assert(is_white_space(blank[blank.len() - 1]));
        assert(whole.last() == blank[blank.len() - 1]);
        assert(whole.drop_last() =~= t + blank.drop_last());
        assert forall|i: int| 0 <= i < blank.drop_last().len() implies is_white_space(
            #[trigger] blank.drop_last()[i],
        ) by {
            assert(is_white_space(blank[i]));
        }
        lemma_trim_back_before(t, blank.drop_last());
    }
}

/// Trimming takes away the white space around a text and nothing of the text.
pub proof fn lemma_trim_between(before: Seq<char>, t: Seq<char>, after: Seq<char>)
    requires
        is_blank(before),
        is_blank(after),
        t.len() > 0 ==> !is_white_space(t[0]) && !is_white_space(t.last()),
    ensures
        trim(before + t + after) == t,
{
    if t.len() == 0 {
        let whole = before + t + after;
        assert forall|i: int| 0 <= i < whole.len() implies is_white_space(#[trigger] whole[i]) by {
            if i < before.len() {
                assert(is_white_space(before[i]));
            } else {
                assert(is_white_space(after[i - before.len()]));
            }
        }
        lemma_blank_iff_trims_to_empty(whole);
        assert(trim(whole) =~= t);
    } else {
        assert(before + t + after =~= before + (t + after));
        lemma_trim_front_behind(before, t + after);
        lemma_trim_back_before(t, after);
    }
}

/// A part occurs in a text exactly where the text is the part with something around it.
pub proof fn lemma_contains_text(
    s: Seq<char>,
    before: Seq<char>,
    part: Seq<char>,
    after: Seq<char>,
)
    ensures
        contains_text(before + part + after, part),
        contains_text(s, part) ==> exists|a: Seq<char>, b: Seq<char>|
            s == #[trigger] (a + part + b),
{
    let whole = before + part + after;
    assert(whole.skip(before.len() as int) =~= part + after);
    lemma_prefix_and_rest(whole, part, after);
    assert(starts_with(whole.skip(before.len() as int), part));
    if contains_text(s, part) {
        let at = choose|at: int| 0 <= at <= s.len() && starts_with(#[trigger] s.skip(at), part);
        let rest = s.skip(at);
        lemma_prefix_and_rest(rest, part, rest);
        let b = rest.skip(part.len() as int);
        assert(s =~= s.take(at) + part + b);
    }
}

proof fn lemma_split_in_two(a: Seq<char>, sep: char, b: Seq<char>)
    requires
        !a.contains(sep),
    ensures
        split(a + seq![sep] + b, sep) == seq![a] + split(b, sep),
{
    let whole = a + seq![sep] + b;
    let n = a.len() as int;
    assert forall|k: int| 0 <= k < n implies whole[k] != sep by {
        assert(whole[k] == a[k]);
        assert(a.contains(a[k]));
    }
    lemma_split_step(whole, sep, n);
    assert(whole.take(n) =~= a);
    assert(whole.skip(n + 1) =~= b);
}

/// Splitting at a separator: what stands before the first one, then the pieces of what follows it.
pub proof fn lemma_split_at(a: Seq<char>, sep: char, b: Seq<char>)
    requires
        !a.contains(sep),
    ensures
        split(a, sep) == seq![a],
        split(a + seq![sep] + b, sep) == seq![a] + split(b, sep),
{
    lemma_split_whole(a, sep);
    lemma_split_in_two(a, sep, b);
}

/// Joining puts the first part in front, and the separator behind it.
pub proof fn lemma_join_front(parts: Seq<Seq<char>>, sep: Seq<char>)
    requires
        parts.len() > 1,
    ensures
        join(parts, sep) == parts[0] + sep + join(parts.drop_first(), sep),
    decreases parts.len(),
{
    let rest = parts.drop_first();
    if parts.len() == 2 {
        assert(parts.drop_last() =~= seq![parts[0]]);
        assert(rest =~= seq![parts[1]]);
        assert(join(parts.drop_last(), sep) == parts[0]);
    } else {
        lemma_join_front(parts.drop_last(), sep);
        assert(parts.drop_last().drop_first() =~= rest.drop_last());
        assert(join(parts, sep) =~= parts[0] + sep + join(rest, sep));
    }
}

/// Splitting undoes joining: pieces without the separator come back as they were.
pub proof fn lemma_split_join(parts: Seq<Seq<char>>, sep: char)
    requires
        parts.len() > 0,
        forall|i: int| 0 <= i < parts.len() ==> !(#[trigger] parts[i]).contains(sep),
    ensures
        split(join(parts, seq![sep]), sep) == parts,
    decreases parts.len(),
{
    if parts.len() == 1 {
        lemma_split_whole(parts[0], sep);
        assert(seq![parts[0]] =~= parts);
    } else {
        let rest = parts.drop_first();
        assert forall|i: int| 0 <= i < rest.len() implies !(#[trigger] rest[i]).contains(sep) by {
            assert(rest[i] == parts[i + 1]);
        }
        lemma_join_front(parts, seq![sep]);
        lemma_split_join(rest, sep);
        lemma_split_in_two(parts[0], sep, join(rest, seq![sep]));
        assert(seq![parts[0]] + rest =~= parts);
    }
}

/// Replacing: a text in which nothing is to be replaced stays as it is, and otherwise what stands
/// before the first occurrence is kept, the occurrence is replaced, and so on with what follows.
pub proof fn lemma_replace_first(
    before: Seq<char>,
    from: Seq<char>,
    to: Seq<char>,
    after: Seq<char>,
)
    requires
        from.len() > 0,
        forall|k: int|
            0 <= k < before.len() ==> !starts_with(
                #[trigger] (before + from + after).skip(k),
                from,
            ),
    ensures
        replace_all(before + from + after, from, to) == before + to + replace_all(after, from, to),
    decreases before.len(),
{
    let whole = before + from + after;
    if before.len() == 0 {
        assert(whole =~= from + after);
        lemma_prefix_and_rest(whole, from, after);
        assert(whole.skip(from.len() as int) =~= after);
        assert(before + to + replace_all(after, from, to) =~= to + replace_all(after, from, to));
    } else {
        let rest = before.drop_first();
        let tail = rest + from + after;
        assert(whole.skip(0) =~= whole);
        assert(whole.drop_first() =~= tail);
        assert forall|k: int| 0 <= k < rest.len() implies !starts_with(
            #[trigger] tail.skip(k),
            from,
        ) by {
            assert(tail.skip(k) =~= whole.skip(k + 1));
        }
        lemma_replace_first(rest, from, to, after);
        assert(seq![before[0]] + (rest + to + replace_all(after, from, to)) =~= before + to
            + replace_all(after, from, to));
    }
}

/// A text in which nothing is to be replaced stays as it is.
pub proof fn lemma_replace_nothing(s: Seq<char>, from: Seq<char>, to: Seq<char>)
    requires
        !contains_text(s, from),
    ensures
        replace_all(s, from, to) == s,
    decreases s.len(),
{
    if s.len() > 0 {
        let tail = s.drop_first();
        assert(s.skip(0) =~= s);
        assert(!starts_with(s.skip(0), from));
        assert(!contains_text(tail, from)) by {
            if contains_text(tail, from) {
                let at = choose|at: int|
                    0 <= at <= tail.len() && starts_with(#[trigger] tail.skip(at), from);
                assert(tail.skip(at) =~= s.skip(at + 1));
            }
        }
        lemma_replace_nothing(tail, from, to);
        assert(seq![s[0]] + tail =~= s);
    } else {
        assert(replace_all(s, from, to) =~= s);
    }
}

/// Two texts agree apart from case exactly where each two characters at the same place are the same
/// or the upper-case and the lower-case form of one ASCII letter.
pub proof fn lemma_case_differs_in_letters(a: Seq<char>, b: Seq<char>)
    ensures
        eq_ignore_ascii_case(a, b) <==> a.len() == b.len() && forall|i: int|
            0 <= i < a.len() ==> {
                ||| #[trigger] a[i] == b[i]
                ||| 'A' <= a[i] <= 'Z' && b[i] as int == a[i] as int + 32
                ||| 'A' <= b[i] <= 'Z' && a[i] as int == b[i] as int + 32
            },
{
    assert forall|c: char, d: char| #[trigger] ascii_lower(c) == #[trigger] ascii_lower(d) <==> {
        ||| c == d
        ||| 'A' <= c <= 'Z' && d as int == c as int + 32
        ||| 'A' <= d <= 'Z' && c as int == d as int + 32
    } by {
        lemma_lower_of(c);
        lemma_lower_of(d);
    }
    if a.len() == b.len() {
        if eq_ignore_ascii_case(a, b) {
            assert forall|i: int| 0 <= i < a.len() implies {
                ||| #[trigger] a[i] == b[i]
                ||| 'A' <= a[i] <= 'Z' && b[i] as int == a[i] as int + 32
                ||| 'A' <= b[i] <= 'Z' && a[i] as int == b[i] as int + 32
            } by {
                assert(ascii_lower(a[i]) == ascii_lower(b[i]));
            }
        }
    }
}

proof fn lemma_lower_of(c: char)
    ensures
        ascii_lower(c) as int == (if 'A' <= c <= 'Z' {
            c as int + 32
        } else {
            c as int
        }),
{
}

/// A number in decimal is made of digits, has no zero in front but for the number 0, and is read
/// back as the number that it stands for.
pub proof fn lemma_decimal_reads_back(n: nat)
    ensures
        decimal(n).len() > 0,
        all_digits(decimal(n)),
        n > 0 ==> decimal(n)[0] != '0',
        digits_value(decimal(n)) == n,
        parse_u32(decimal(n)) == (if n <= u32::MAX {
            Some(n as u32)
        } else {
            None
        }),
    decreases n,
{
    if n < 10 {
        let one = seq![digit(n)];
        assert(one.drop_last() =~= Seq::<char>::empty());
        assert(one.last() == digit(n));
        assert(digits_value(one.drop_last()) == 0);
    } else {
        lemma_decimal_reads_back(n / 10);
        let front = decimal(n / 10);
        let all = front.push(digit(n % 10));
        assert(all.drop_last() =~= front);
        assert forall|i: int| 0 <= i < all.len() implies '0' <= #[trigger] all[i] <= '9' by {
            if i < front.len() {
                assert(all[i] == front[i]);
            }
        }
    }
    assert(decimal(n)[0] != '+');
}

/// A signed number in decimal is its amount, behind a minus sign where it is negative.
pub proof fn lemma_signed_decimal_reads_back(n: int)
    ensures
        n >= 0 ==> digits_value(signed_decimal(n)) == n && all_digits(signed_decimal(n)),
        n < 0 ==> signed_decimal(n).len() > 1 && signed_decimal(n)[0] == '-' && digits_value(
            signed_decimal(n).drop_first(),
        ) == -n && all_digits(signed_decimal(n).drop_first()),
{
    if n >= 0 {
        lemma_decimal_reads_back(n as nat);
    } else {
        lemma_decimal_reads_back((-n) as nat);
        assert(signed_decimal(n).drop_first() =~= decimal((-n) as nat));
    }
}

/// One more digit makes ten times the number, and the digit.
pub proof fn lemma_digits_value_push(s: Seq<char>, c: char)
    requires
        '0' <= c <= '9',
    ensures
        digits_value(Seq::<char>::empty()) == 0,
        digits_value(s.push(c)) == 10 * digits_value(s) + (c as int - '0' as int),
{
    assert(s.push(c).drop_last() =~= s);
}

/// A text that is read as a number is made of digits, behind a plus sign at most, and is not a
/// larger number than there is room for.
pub proof fn lemma_parsed_numbers(s: Seq<char>)
    ensures
        parse_u32(s) is Some ==> s.len() > 0 && forall|i: int|
            0 <= i < s.len() ==> '0' <= #[trigger] s[i] <= '9' || (i == 0 && s[i] == '+'),
        all_digits(s) && s.len() > 0 ==> (parse_u32(s) is Some <==> digits_value(s) <= u32::MAX),
        parse_u32(s) matches Some(n) ==> (all_digits(s) ==> n == digits_value(s)),
        all_digits(s) ==> parse_u32(seq!['+'] + s) == parse_u32(s),
{
    if s.len() > 0 && s[0] == '+' {
        let rest = s.drop_first();
        if parse_u32(s) is Some {
            assert forall|i: int| 0 <= i < s.len() implies '0' <= #[trigger] s[i] <= '9' || (i == 0
                && s[i] == '+') by {
                if i > 0 {
                    assert('0' <= rest[i - 1] <= '9');
                }
            }
        }
    }
    assert((seq!['+'] + s).drop_first() =~= s);
}

/// A list that grows by an element has that element as one more distinct one, at the end, exactly
/// where it did not have it before.
pub proof fn lemma_distinct_push(list: Seq<Seq<char>>, t: Seq<char>)
    ensures
        distinct(Seq::<Seq<char>>::empty()) == Seq::<Seq<char>>::empty(),
        distinct(list.push(t)) == (if list.contains(t) {
            distinct(list)
        } else {
            distinct(list).push(t)
        }),
{
    lemma_distinct(list);
    assert(list.push(t).drop_last() =~= list);
}

} // verus!
