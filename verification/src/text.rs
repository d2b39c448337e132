//! Text primitives: searching, splitting, joining, trimming and numbers.
//!
//! Text is specified as a sequence of characters. Each function here states
//! its result over that sequence.

use vstd::prelude::*;
use vstd::string::*;

verus! {

broadcast use vstd::string::axiom_spec_iter;

/// Appends one character (`String::push`).
pub assume_specification[ String::push ](s: &mut String, c: char)
    ensures
        final(s)@ == old(s)@.push(c),
;

/// The texts of a list of strings.
pub open spec fn texts(v: Seq<String>) -> Seq<Seq<char>> {
    v.map_values(|s: String| s@)
}

/// The characters of `s`.
pub fn to_chars(s: &str) -> (r: Vec<char>)
    ensures
        r@ == s@,
{
    let mut r: Vec<char> = Vec::new();
    for c in it: s.chars()
        invariant
            r@ == it.seq().take(it.index() as int),
            it.seq() == s@,
    {
        r.push(c);
    }
    r
}

/// The string made of the characters of `v`.
pub fn from_chars(v: &Vec<char>) -> (r: String)
    ensures
        r@ == v@,
{
    slice_text(v, 0, v.len())
}

/// The string made of the characters `lo..hi` of `v`.
pub fn slice_text(v: &Vec<char>, lo: usize, hi: usize) -> (r: String)
    requires
        lo <= hi <= v.len(),
    ensures
        r@ == v@.subrange(lo as int, hi as int),
{
    let mut r: String = String::new();
    let mut i: usize = lo;
    while i < hi
        invariant
            lo <= i <= hi <= v.len(),
            r@ == v@.subrange(lo as int, i as int),
        decreases hi - i,
    {
        r.push(v[i]);
        i = i + 1;
    }
    r
}

/// Whether two texts are equal.
pub fn same(a: &str, b: &str) -> (r: bool)
    ensures
        r == (a@ == b@),
{
    let x: Vec<char> = to_chars(a);
    let y: Vec<char> = to_chars(b);
    if x.len() != y.len() {
        return false;
    }
    let mut i: usize = 0;
    while i < x.len()
        invariant
            x@ == a@,
            y@ == b@,
            x.len() == y.len(),
            i <= x.len(),
            x@.take(i as int) == y@.take(i as int),
        decreases x.len() - i,
    {
        if x[i] != y[i] {
            assert(a@[i as int] != b@[i as int]);
            return false;
        }
        i = i + 1;
    }
    assert(x@ == x@.take(i as int));
    assert(y@ == y@.take(i as int));
    true
}

// ---------------------------------------------------------------------------
// Searching
// ---------------------------------------------------------------------------

/// `pat` stands in `s` at position `i`.
pub open spec fn occurs_at(s: Seq<char>, pat: Seq<char>, i: int) -> bool {
    &&& 0 <= i
    &&& i + pat.len() <= s.len()
    &&& s.subrange(i, i + pat.len()) == pat
}

/// `pat` stands somewhere in `s`.
pub open spec fn occurs(s: Seq<char>, pat: Seq<char>) -> bool {
    exists|i: int| occurs_at(s, pat, i)
}

/// The first place of `pat` in `s` is `i`.
pub open spec fn first_at(s: Seq<char>, pat: Seq<char>, i: int) -> bool {
    &&& occurs_at(s, pat, i)
    &&& forall|j: int| 0 <= j < i ==> !occurs_at(s, pat, j)
}

fn matches_at(s: &Vec<char>, pat: &Vec<char>, i: usize) -> (r: bool)
    requires
        i + pat.len() <= s.len(),
    ensures
        r == occurs_at(s@, pat@, i as int),
{
    let mut k: usize = 0;
    while k < pat.len()
        invariant
            i + pat.len() <= s.len(),
            k <= pat.len(),
            forall|m: int| 0 <= m < k ==> s@[i + m] == pat@[m],
        decreases pat.len() - k,
    {
        if s[i + k] != pat[k] {
            assert(s@.subrange(i as int, i + pat.len())[k as int] != pat@[k as int]);
            return false;
        }
        k = k + 1;
    }
    assert(s@.subrange(i as int, i + pat.len()) =~= pat@);
    true
}

/// The first position of `pat` in `s`.
pub fn find(s: &str, pat: &str) -> (r: Option<usize>)
    ensures
        match r {
            Some(i) => first_at(s@, pat@, i as int),
            None => !occurs(s@, pat@),
        },
{
    let sv: Vec<char> = to_chars(s);
    let pv: Vec<char> = to_chars(pat);
    if pv.len() > sv.len() {
        return None;
    }
    let mut i: usize = 0;
    while i <= sv.len() - pv.len()
        invariant
            sv@ == s@,
            pv@ == pat@,
            pv.len() <= sv.len(),
            i <= sv.len() - pv.len() + 1,
            forall|j: int| 0 <= j < i ==> !occurs_at(s@, pat@, j),
        decreases sv.len() - pv.len() + 1 - i,
    {
        if matches_at(&sv, &pv, i) {
            return Some(i);
        }
        if i == sv.len() - pv.len() {
            assert forall|j: int| !occurs_at(s@, pat@, j) by {}
            return None;
        }
        i = i + 1;
    }
    None
}

/// Whether `pat` stands somewhere in `s`.
pub fn contains(s: &str, pat: &str) -> (r: bool)
    ensures
        r == occurs(s@, pat@),
{
    match find(s, pat) {
        Some(_) => true,
        None => false,
    }
}

/// Whether `s` begins with `pat`.
pub fn starts_with(s: &str, pat: &str) -> (r: bool)
    ensures
        r == pat@.is_prefix_of(s@),
{
    let sv: Vec<char> = to_chars(s);
    let pv: Vec<char> = to_chars(pat);
    if pv.len() > sv.len() {
        return false;
    }
    matches_at(&sv, &pv, 0)
}

/// Whether `s` begins with the character `c`.
pub fn begins_with(s: &str, c: char) -> (r: bool)
    ensures
        r == (s@.len() > 0 && s@[0] == c),
{
    let sv: Vec<char> = to_chars(s);
    sv.len() > 0 && sv[0] == c
}

/// Whether `s` ends with `pat`.
pub fn ends_with(s: &str, pat: &str) -> (r: bool)
    ensures
        r == pat@.is_suffix_of(s@),
{
    let sv: Vec<char> = to_chars(s);
    let pv: Vec<char> = to_chars(pat);
    if pv.len() > sv.len() {
        return false;
    }
    let at: usize = sv.len() - pv.len();
    matches_at(&sv, &pv, at)
}

/// `s` without the prefix `pat`, where it has it.
pub fn strip_prefix(s: &str, pat: &str) -> (r: Option<String>)
    ensures
        match r {
            Some(rest) => pat@.is_prefix_of(s@) && rest@ == s@.skip(pat@.len() as int),
            None => !pat@.is_prefix_of(s@),
        },
{
    if starts_with(s, pat) {
        let sv: Vec<char> = to_chars(s);
        let n: usize = to_chars(pat).len();
        let rest: String = slice_text(&sv, n, sv.len());
        assert(rest@ =~= s@.skip(pat@.len() as int));
        Some(rest)
    } else {
        None
    }
}

/// `s` holds the character `c`.
pub fn has_char(s: &str, c: char) -> (r: bool)
    ensures
        r == s@.contains(c),
{
    let sv: Vec<char> = to_chars(s);
    let mut i: usize = 0;
    while i < sv.len()
        invariant
            sv@ == s@,
            i <= sv.len(),
            forall|j: int| 0 <= j < i ==> s@[j] != c,
        decreases sv.len() - i,
    {
        if sv[i] == c {
            return true;
        }
        i = i + 1;
    }
    false
}

/// The last position of `c` in `s`.
pub fn rfind_char(s: &str, c: char) -> (r: Option<usize>)
    ensures
        match r {
            Some(i) => i < s@.len() && s@[i as int] == c && !s@.skip(i + 1).contains(c),
            None => !s@.contains(c),
        },
{
    let sv: Vec<char> = to_chars(s);
    let mut i: usize = sv.len();
    while i > 0
        invariant
            sv@ == s@,
            i <= sv.len(),
            forall|j: int| i <= j < s@.len() ==> s@[j] != c,
        decreases i,
    {
        i = i - 1;
        if sv[i] == c {
            assert forall|k: int| 0 <= k < s@.skip(i + 1).len() implies #[trigger] s@.skip(i
                + 1)[k] != c by {
                assert(s@.skip(i + 1)[k] == s@[i + 1 + k]);
            }
            return Some(i);
        }
    }
    None
}

/// Whether `v` holds a string with the text of `s`.
pub fn list_has(v: &Vec<String>, s: &str) -> (r: bool)
    ensures
        r == texts(v@).contains(s@),
{
    let mut i: usize = 0;
    while i < v.len()
        invariant
            i <= v.len(),
            forall|j: int| 0 <= j < i ==> #[trigger] texts(v@)[j] != s@,
        decreases v.len() - i,
    {
        if same(v[i].as_str(), s) {
            assert(texts(v@)[i as int] == s@);
            return true;
        }
        i = i + 1;
    }
    assert(forall|j: int| 0 <= j < texts(v@).len() ==> texts(v@)[j] != s@);
    false
}

// ---------------------------------------------------------------------------
// Splitting, joining and replacing
// ---------------------------------------------------------------------------

/// The pieces of `s` between the occurrences of `sep`.
pub open spec fn pieces(s: Seq<char>, sep: char) -> Seq<Seq<char>>
    decreases s.len(),
{
    if s.len() == 0 {
        seq![Seq::<char>::empty()]
    } else {
        let before = pieces(s.drop_last(), sep);
        if s.last() == sep {
            before.push(Seq::empty())
        } else {
            before.update(before.len() - 1, before.last().push(s.last()))
        }
    }
}

proof fn lemma_pieces_nonempty(s: Seq<char>, sep: char)
    ensures
        pieces(s, sep).len() > 0,
    decreases s.len(),
{
    if s.len() > 0 {
        lemma_pieces_nonempty(s.drop_last(), sep);
    }
}

/// A text without the separator is one piece, and behind a separator it is one more.
pub proof fn lemma_piece_behind(s: Seq<char>, piece: Seq<char>, sep: char)
    requires
        !piece.contains(sep),
    ensures
        pieces(piece, sep) == seq![piece],
        pieces(s.push(sep) + piece, sep) == pieces(s, sep).push(piece),
    decreases piece.len(),
{
    let whole = s.push(sep) + piece;
    if piece.len() == 0 {
        assert(whole =~= s.push(sep));
        assert(s.push(sep).drop_last() =~= s);
        assert(piece =~= Seq::<char>::empty());
    } else {
        let front = piece.drop_last();
        assert(forall|i: int| 0 <= i < front.len() ==> front[i] == piece[i]);
        lemma_piece_behind(s, front, sep);
        assert(piece[piece.len() - 1] == piece.last());
        assert(whole.drop_last() =~= s.push(sep) + front);
        assert(whole.last() == piece.last());
        assert(front.push(piece.last()) =~= piece);
        assert(pieces(piece, sep) =~= seq![piece]);
        assert(pieces(whole, sep) =~= pieces(s, sep).push(piece));
    }
}

/// Splits `s` at each `sep`.
pub fn split(s: &str, sep: char) -> (r: Vec<String>)
    ensures
        texts(r@) == pieces(s@, sep),
        r.len() > 0,
{
    let sv: Vec<char> = to_chars(s);
    let mut done: Vec<String> = Vec::new();
    let mut cur: String = String::new();
    let mut i: usize = 0;
    while i < sv.len()
        invariant
            sv@ == s@,
            i <= sv.len(),
            texts(done@).push(cur@) == pieces(s@.take(i as int), sep),
        decreases sv.len() - i,
    {
        let c: char = sv[i];
        proof {
            assert(s@.take(i + 1).drop_last() =~= s@.take(i as int));
            lemma_pieces_nonempty(s@.take(i as int), sep);
        }
        let ghost done0 = done@;
        let ghost cur0 = cur@;
        if c == sep {
            let piece: String = cur.clone();
            done.push(piece);
            cur = String::new();
            assert(texts(done@) =~= texts(done0).push(cur0));
        } else {
            cur.push(c);
        }
        assert(texts(done@).push(cur@) =~= pieces(s@.take(i + 1), sep));
        i = i + 1;
    }
    assert(s@.take(i as int) =~= s@);
    let ghost done0 = done@;
    let ghost cur0 = cur@;
    done.push(cur);
    assert(texts(done@) =~= texts(done0).push(cur0));
    done
}

/// The pieces in order with `sep` between them.
pub open spec fn joined(parts: Seq<Seq<char>>, sep: Seq<char>) -> Seq<char>
    decreases parts.len(),
{
    if parts.len() == 0 {
        Seq::empty()
    } else if parts.len() == 1 {
        parts[0]
    } else {
        joined(parts.drop_last(), sep) + sep + parts.last()
    }
}

/// Joins `parts` with `sep`.
pub fn join(parts: &Vec<String>, sep: &str) -> (r: String)
    ensures
        r@ == joined(texts(parts@), sep@),
{
    let mut r: String = String::new();
    let mut i: usize = 0;
    while i < parts.len()
        invariant
            i <= parts.len(),
            r@ == joined(texts(parts@).take(i as int), sep@),
        decreases parts.len() - i,
    {
        proof {
            let ts = texts(parts@);
            assert(ts.take(i + 1).drop_last() =~= ts.take(i as int));
            assert(ts.take(i + 1).last() == parts@[i as int]@);
        }
        if i > 0 {
            r.append(sep);
        } else {
            assert(r@ =~= Seq::empty());
        }
        r.append(parts[i].as_str());
        assert(r@ =~= joined(texts(parts@).take(i + 1), sep@));
        i = i + 1;
    }
    assert(texts(parts@).take(i as int) =~= texts(parts@));
    r
}

/// `s` with each `c` replaced by `with`.
pub open spec fn replaced_char(s: Seq<char>, c: char, with: Seq<char>) -> Seq<char>
    decreases s.len(),
{
    if s.len() == 0 {
        Seq::empty()
    } else {
        replaced_char(s.drop_last(), c, with) + if s.last() == c {
            with
        } else {
            seq![s.last()]
        }
    }
}

/// Replaces each `c` in `s` by `with`.
pub fn replace_char(s: &str, c: char, with: &str) -> (r: String)
    ensures
        r@ == replaced_char(s@, c, with@),
{
    let sv: Vec<char> = to_chars(s);
    let mut r: String = String::new();
    let mut i: usize = 0;
    while i < sv.len()
        invariant
            sv@ == s@,
            i <= sv.len(),
            r@ == replaced_char(s@.take(i as int), c, with@),
        decreases sv.len() - i,
    {
        assert(s@.take(i + 1).drop_last() =~= s@.take(i as int));
        let ghost r0 = r@;
        if sv[i] == c {
            r.append(with);
        } else {
            r.push(sv[i]);
            assert(r@ =~= r0 + seq![s@[i as int]]);
        }
        i = i + 1;
    }
    assert(s@.take(i as int) =~= s@);
    r
}

/// `s` with each leftmost, non-overlapping `pat` replaced by `with`.
pub open spec fn replaced(s: Seq<char>, pat: Seq<char>, with: Seq<char>) -> Seq<char>
    decreases s.len(),
{
    if s.len() == 0 || pat.len() == 0 {
        s
    } else if pat.is_prefix_of(s) {
        with + replaced(s.skip(pat.len() as int), pat, with)
    } else {
        seq![s[0]] + replaced(s.skip(1), pat, with)
    }
}

/// Replaces `pat` in `s` by `with`, leftmost first.
pub fn replace(s: &str, pat: &str, with: &str) -> (r: String)
    requires
        pat@.len() > 0,
    ensures
        r@ == replaced(s@, pat@, with@),
{
    let sv: Vec<char> = to_chars(s);
    let pv: Vec<char> = to_chars(pat);
    let mut r: String = String::new();
    let mut i: usize = 0;
    assert(s@.skip(0) =~= s@);
    while i < sv.len()
        invariant
            sv@ == s@,
            pv@ == pat@,
            pat@.len() > 0,
            i <= sv.len(),
            r@ + replaced(s@.skip(i as int), pat@, with@) == replaced(s@, pat@, with@),
        decreases sv.len() - i,
    {
        let ghost rest = s@.skip(i as int);
        let ghost r0 = r@;
        if pv.len() <= sv.len() - i && matches_at(&sv, &pv, i) {
            proof {
                assert(rest.subrange(0, pat@.len() as int) =~= s@.subrange(
                    i as int,
                    i + pat@.len(),
                ));
                assert(rest.skip(pat@.len() as int) =~= s@.skip(i + pat@.len()));
            }
            r.append(with);
            i = i + pv.len();
            assert(r@ + replaced(s@.skip(i as int), pat@, with@) =~= r0 + replaced(
                rest,
                pat@,
                with@,
            ));
        } else {
            proof {
                if pat@.is_prefix_of(rest) {
                    assert(s@.subrange(i as int, i + pat@.len()) =~= rest.subrange(
                        0,
                        pat@.len() as int,
                    ));
                }
                assert(rest.skip(1) =~= s@.skip(i + 1));
            }
            r.push(sv[i]);
            i = i + 1;
            assert(r@ + replaced(s@.skip(i as int), pat@, with@) =~= r0 + replaced(
                rest,
                pat@,
                with@,
            ));
        }
    }
    assert(s@.skip(i as int) =~= Seq::<char>::empty());
    assert(r@ + Seq::<char>::empty() =~= r@);
    r
}

// ---------------------------------------------------------------------------
// Lines and words
// ---------------------------------------------------------------------------

/// `s` without one `c` at its end.
pub open spec fn without_last(s: Seq<char>, c: char) -> Seq<char> {
    if s.len() > 0 && s.last() == c {
        s.drop_last()
    } else {
        s
    }
}

/// The lines of `s`: a line ends in `\n` or `\r\n`, the last one may lack it.
pub open spec fn text_lines(s: Seq<char>) -> Seq<Seq<char>> {
    let parts = pieces(s, '\n');
    let ended = parts.drop_last().map_values(|p: Seq<char>| without_last(p, '\r'));
    if parts.last().len() == 0 {
        ended
    } else {
        ended.push(parts.last())
    }
}

fn drop_one(s: &str, c: char) -> (r: String)
    ensures
        r@ == without_last(s@, c),
{
    let sv: Vec<char> = to_chars(s);
    if sv.len() > 0 && sv[sv.len() - 1] == c {
        assert(s@.subrange(0, sv.len() - 1) =~= s@.drop_last());
        slice_text(&sv, 0, sv.len() - 1)
    } else {
        s.to_owned()
    }
}

/// Splits `s` into its lines.
pub fn lines(s: &str) -> (r: Vec<String>)
    ensures
        texts(r@) == text_lines(s@),
{
    let parts: Vec<String> = split(s, '\n');
    let mut r: Vec<String> = Vec::new();
    let mut i: usize = 0;
    let ghost ended = pieces(s@, '\n').drop_last().map_values(
        |p: Seq<char>| without_last(p, '\r'),
    );
    while i < parts.len() - 1
        invariant
            texts(parts@) == pieces(s@, '\n'),
            ended == pieces(s@, '\n').drop_last().map_values(
                |p: Seq<char>| without_last(p, '\r'),
            ),
            i <= parts.len() - 1,
            texts(r@) == ended.take(i as int),
        decreases parts.len() - i,
    {
        let ghost r0 = r@;
        let line: String = drop_one(parts[i].as_str(), '\r');
        r.push(line);
        assert(texts(parts@)[i as int] == parts@[i as int]@);
        assert(texts(r@) =~= texts(r0).push(line@));
        assert(ended.take(i + 1) =~= ended.take(i as int).push(ended[i as int]));
        i = i + 1;
    }
    assert(ended.take(i as int) =~= ended);
    let ghost r0 = r@;
    assert(texts(parts@).last() == parts@[i as int]@);
    if !parts[i].as_str().is_empty() {
        r.push(parts[i].clone());
        assert(texts(r@) =~= texts(r0).push(parts@[i as int]@));
    }
    r
}

/// How many characters stand before the first white space.
pub open spec fn word_len(s: Seq<char>) -> nat
    decreases s.len(),
{
    if s.len() == 0 || is_space(s[0]) {
        0
    } else {
        1 + word_len(s.skip(1))
    }
}

/// The first word of `s`: the characters between white space.
pub open spec fn word(s: Seq<char>) -> Option<Seq<char>> {
    let t = trimmed_start(s);
    if t.len() == 0 {
        None
    } else {
        Some(t.take(word_len(t) as int))
    }
}

/// The first word of `s`.
pub fn first_word(s: &str) -> (r: Option<String>)
    ensures
        match r {
            Some(w) => word(s@) == Some(w@),
            None => word(s@) is None,
        },
{
    let sv: Vec<char> = to_chars(s);
    let mut lo: usize = 0;
    assert(s@.skip(0) =~= s@);
    while lo < sv.len() && char_is_space(sv[lo])
        invariant
            sv@ == s@,
            lo <= sv.len(),
            trimmed_start(s@.skip(lo as int)) == trimmed_start(s@),
        decreases sv.len() - lo,
    {
        assert(s@.skip(lo as int).skip(1) =~= s@.skip(lo + 1));
        lo = lo + 1;
    }
    let ghost t = s@.skip(lo as int);
    assert(t == trimmed_start(s@));
    if lo == sv.len() {
        return None;
    }
    let mut hi: usize = lo;
    assert(s@.skip(hi as int) =~= t);
    while hi < sv.len() && !char_is_space(sv[hi])
        invariant
            sv@ == s@,
            lo <= hi <= sv.len(),
            word_len(t) == hi - lo + word_len(s@.skip(hi as int)),
        decreases sv.len() - hi,
    {
        assert(s@.skip(hi as int).skip(1) =~= s@.skip(hi + 1));
        hi = hi + 1;
    }
    assert(word_len(s@.skip(hi as int)) == 0);
    assert(s@.subrange(lo as int, hi as int) =~= t.take(hi - lo));
    Some(slice_text(&sv, lo, hi))
}

proof fn lemma_word_len(s: Seq<char>)
    ensures
        word_len(s) <= s.len(),
    decreases s.len(),
{
    if s.len() > 0 && !is_space(s[0]) {
        lemma_word_len(s.skip(1));
    }
}

/// The words of `s`: what stands between white space.
pub open spec fn words(s: Seq<char>) -> Seq<Seq<char>>
    decreases s.len(),
    via words_get_shorter
{
    if s.len() == 0 {
        Seq::empty()
    } else if is_space(s[0]) {
        words(s.skip(1))
    } else {
        seq![s.take(word_len(s) as int)] + words(s.skip(word_len(s) as int))
    }
}

#[via_fn]
proof fn words_get_shorter(s: Seq<char>) {
    lemma_word_len(s);
}

/// The words of `s`.
pub fn split_words(s: &str) -> (r: Vec<String>)
    ensures
        texts(r@) == words(s@),
{
    let sv: Vec<char> = to_chars(s);
    let mut out: Vec<String> = Vec::new();
    let mut i: usize = 0;
    assert(s@.skip(0) =~= s@);
    assert(texts(out@) =~= Seq::<Seq<char>>::empty());
    while i < sv.len()
        invariant
            sv@ == s@,
            i <= sv.len(),
            words(s@) == texts(out@) + words(s@.skip(i as int)),
        decreases sv.len() - i,
    {
        let ghost t = s@.skip(i as int);
        if char_is_space(sv[i]) {
            assert(t.skip(1) =~= s@.skip(i + 1));
            i = i + 1;
        } else {
            let mut hi: usize = i;
            assert(s@.skip(hi as int) =~= t);
            while hi < sv.len() && !char_is_space(sv[hi])
                invariant
                    sv@ == s@,
                    i <= hi <= sv.len(),
                    word_len(t) == hi - i + word_len(s@.skip(hi as int)),
                decreases sv.len() - hi,
            {
                assert(s@.skip(hi as int).skip(1) =~= s@.skip(hi + 1));
                hi = hi + 1;
            }
            assert(word_len(s@.skip(hi as int)) == 0);
            let ghost before = texts(out@);
            let w: String = slice_text(&sv, i, hi);
            out.push(w);
            proof {
                lemma_word_len(t);
                assert(w@ =~= t.take(word_len(t) as int));
                assert(texts(out@) =~= before.push(w@));
                assert(t.skip(word_len(t) as int) =~= s@.skip(hi as int));
                assert(before + (seq![w@] + words(s@.skip(hi as int))) =~= before.push(w@) + words(
                    s@.skip(hi as int),
                ));
            }
            i = hi;
        }
    }
    assert(s@.skip(i as int) =~= Seq::<char>::empty());
    assert(texts(out@) + Seq::<Seq<char>>::empty() =~= texts(out@));
    out
}

// ---------------------------------------------------------------------------
// Trimming and case
// ---------------------------------------------------------------------------

/// The characters with the Unicode `White_Space` property.
pub open spec fn is_space(c: char) -> bool {
    ||| '\u{9}' <= c <= '\u{d}'
    ||| c == '\u{20}'
    ||| c == '\u{85}'
    ||| c == '\u{a0}'
    ||| c == '\u{1680}'
    ||| '\u{2000}' <= c <= '\u{200a}'
    ||| c == '\u{2028}'
    ||| c == '\u{2029}'
    ||| c == '\u{202f}'
    ||| c == '\u{205f}'
    ||| c == '\u{3000}'
}

/// Decides [`is_space`].
pub fn char_is_space(c: char) -> (r: bool)
    ensures
        r == is_space(c),
{
    ('\u{9}' <= c && c <= '\u{d}') || c == '\u{20}' || c == '\u{85}' || c == '\u{a0}' || c
        == '\u{1680}' || ('\u{2000}' <= c && c <= '\u{200a}') || c == '\u{2028}' || c == '\u{2029}'
        || c == '\u{202f}' || c == '\u{205f}' || c == '\u{3000}'
}

/// `s` without leading white space.
pub open spec fn trimmed_start(s: Seq<char>) -> Seq<char>
    decreases s.len(),
{
    if s.len() > 0 && is_space(s[0]) {
        trimmed_start(s.skip(1))
    } else {
        s
    }
}

/// `s` without trailing white space.
pub open spec fn trimmed_end(s: Seq<char>) -> Seq<char>
    decreases s.len(),
{
    if s.len() > 0 && is_space(s.last()) {
        trimmed_end(s.drop_last())
    } else {
        s
    }
}

/// `s` without white space at its ends.
pub open spec fn trimmed(s: Seq<char>) -> Seq<char> {
    trimmed_end(trimmed_start(s))
}

/// Removes white space at both ends.
pub fn trim(s: &str) -> (r: String)
    ensures
        r@ == trimmed(s@),
{
    let sv: Vec<char> = to_chars(s);
    let mut lo: usize = 0;
    assert(s@.skip(0) =~= s@);
    while lo < sv.len() && char_is_space(sv[lo])
        invariant
            sv@ == s@,
            lo <= sv.len(),
            trimmed_start(s@.skip(lo as int)) == trimmed_start(s@),
        decreases sv.len() - lo,
    {
        assert(s@.skip(lo as int).skip(1) =~= s@.skip(lo + 1));
        lo = lo + 1;
    }
    let ghost mid = s@.skip(lo as int);
    assert(mid == trimmed_start(s@));
    let mut hi: usize = sv.len();
    assert(s@.subrange(lo as int, hi as int) =~= mid);
    while hi > lo && char_is_space(sv[hi - 1])
        invariant
            sv@ == s@,
            lo <= hi <= sv.len(),
            trimmed_end(s@.subrange(lo as int, hi as int)) == trimmed_end(mid),
        decreases hi,
    {
        assert(s@.subrange(lo as int, hi as int).drop_last() =~= s@.subrange(lo as int, hi - 1));
        hi = hi - 1;
    }
    let ghost kept = s@.subrange(lo as int, hi as int);
    assert(kept.len() == 0 || kept.last() == s@[hi - 1]);
    slice_text(&sv, lo, hi)
}

/// `s` without the `c` characters at its end.
pub open spec fn without_trailing(s: Seq<char>, c: char) -> Seq<char>
    decreases s.len(),
{
    if s.len() > 0 && s.last() == c {
        without_trailing(s.drop_last(), c)
    } else {
        s
    }
}

/// Removes every `c` at the end of `s`.
pub fn trim_end_char(s: &str, c: char) -> (r: String)
    ensures
        r@ == without_trailing(s@, c),
{
    let sv: Vec<char> = to_chars(s);
    let mut hi: usize = sv.len();
    assert(s@.take(hi as int) =~= s@);
    while hi > 0 && sv[hi - 1] == c
        invariant
            sv@ == s@,
            hi <= sv.len(),
            without_trailing(s@.take(hi as int), c) == without_trailing(s@, c),
        decreases hi,
    {
        assert(s@.take(hi as int).drop_last() =~= s@.take(hi - 1));
        hi = hi - 1;
    }
    assert(s@.subrange(0, hi as int) =~= s@.take(hi as int));
    slice_text(&sv, 0, hi)
}

/// `s` without the `c` characters at its start.
pub open spec fn without_leading(s: Seq<char>, c: char) -> Seq<char>
    decreases s.len(),
{
    if s.len() > 0 && s[0] == c {
        without_leading(s.skip(1), c)
    } else {
        s
    }
}

/// Removes every `c` at the start of `s`.
pub fn trim_start_char(s: &str, c: char) -> (r: String)
    ensures
        r@ == without_leading(s@, c),
{
    let sv: Vec<char> = to_chars(s);
    let mut lo: usize = 0;
    assert(s@.skip(0) =~= s@);
    while lo < sv.len() && sv[lo] == c
        invariant
            sv@ == s@,
            lo <= sv.len(),
            without_leading(s@.skip(lo as int), c) == without_leading(s@, c),
        decreases sv.len() - lo,
    {
        assert(s@.skip(lo as int).skip(1) =~= s@.skip(lo + 1));
        lo = lo + 1;
    }
    assert(s@.subrange(lo as int, sv.len() as int) =~= s@.skip(lo as int));
    slice_text(&sv, lo, sv.len())
}

/// The ASCII lower case of one character.
pub open spec fn lower(c: char) -> char {
    if 'A' <= c <= 'Z' {
        (c as u32 + 32) as char
    } else {
        c
    }
}

/// The ASCII lower case of a text.
pub open spec fn lowered(s: Seq<char>) -> Seq<char> {
    s.map_values(|c: char| lower(c))
}

fn lower_char(c: char) -> (r: char)
    ensures
        r == lower(c),
{
    if 'A' <= c && c <= 'Z' {
        (c as u8 + 32) as char
    } else {
        c
    }
}

/// The ASCII lower case of `s`.
pub fn ascii_lowercase(s: &str) -> (r: String)
    ensures
        r@ == lowered(s@),
{
    let sv: Vec<char> = to_chars(s);
    let mut r: String = String::new();
    let mut i: usize = 0;
    while i < sv.len()
        invariant
            sv@ == s@,
            i <= sv.len(),
            r@ == lowered(s@.take(i as int)),
        decreases sv.len() - i,
    {
        let ghost r0 = r@;
        r.push(lower_char(sv[i]));
        assert(r@ =~= lowered(s@.take(i + 1)));
        i = i + 1;
    }
    assert(s@.take(i as int) =~= s@);
    r
}

// ---------------------------------------------------------------------------
// Numbers
// ---------------------------------------------------------------------------

/// The decimal digit of `d`.
pub open spec fn digit(d: int) -> char {
    ('0' as int + d) as char
}

/// The decimal digits of `n`, without leading zeros.
pub open spec fn decimal(n: nat) -> Seq<char>
    decreases n,
{
    if n < 10 {
        seq![digit(n as int)]
    } else {
        decimal(n / 10).push(digit(n as int % 10))
    }
}

/// `c` is a decimal digit.
pub open spec fn is_digit(c: char) -> bool {
    '0' <= c <= '9'
}

/// Every character is a decimal digit.
pub open spec fn all_digits(s: Seq<char>) -> bool {
    forall|i: int| 0 <= i < s.len() ==> is_digit(#[trigger] s[i])
}

/// The number that decimal digits stand for.
pub open spec fn digits_value(s: Seq<char>) -> nat
    decreases s.len(),
{
    if s.len() == 0 {
        0
    } else {
        (digits_value(s.drop_last()) * 10 + (s.last() as int - '0' as int)) as nat
    }
}

/// The number that `s` reads as: decimal digits behind an optional plus sign,
/// at most `max`.
pub open spec fn number(s: Seq<char>, max: nat) -> Option<nat> {
    let body = if s.len() > 0 && s[0] == '+' {
        s.skip(1)
    } else {
        s
    };
    if body.len() > 0 && all_digits(body) && digits_value(body) <= max {
        Some(digits_value(body))
    } else {
        None
    }
}

/// Writes `n` in decimal.
pub fn u64_text(n: u64) -> (r: String)
    ensures
        r@ == decimal(n as nat),
    decreases n,
{
    let mut r: String = if n < 10 {
        String::new()
    } else {
        u64_text(n / 10)
    };
    let d: u8 = (n % 10) as u8;
    r.push((48u8 + d) as char);
    assert(r@ =~= decimal(n as nat));
    r
}

/// The decimal text of a signed number.
pub open spec fn signed_decimal(n: int) -> Seq<char> {
    if n < 0 {
        seq!['-'] + decimal((-n) as nat)
    } else {
        decimal(n as nat)
    }
}

/// Writes a signed number in decimal.
pub fn i64_text(n: i64) -> (r: String)
    ensures
        r@ == signed_decimal(n as int),
{
    if n >= 0 {
        u64_text(n as u64)
    } else if n == i64::MIN {
        let mut r: String = String::new();
        r.push('-');
        let digits: String = u64_text(0x8000_0000_0000_0000);
        r.append(digits.as_str());
        assert(r@ =~= seq!['-'] + decimal(0x8000_0000_0000_0000));
        r
    } else {
        let mut r: String = String::new();
        r.push('-');
        let digits: String = u64_text((-n) as u64);
        r.append(digits.as_str());
        assert(r@ =~= seq!['-'] + decimal((-n) as nat));
        r
    }
}

proof fn lemma_digits_value_grows(s: Seq<char>, k: int)
    requires
        0 <= k <= s.len(),
        all_digits(s),
    ensures
        digits_value(s.take(k)) <= digits_value(s),
    decreases s.len() - k,
{
    if k < s.len() {
        assert(s.take(k + 1).drop_last() =~= s.take(k));
        assert(is_digit(s.take(k + 1).last()));
        lemma_digits_value_grows(s, k + 1);
    } else {
        assert(s.take(k) =~= s);
    }
}

/// Reads an unsigned 64-bit number.
pub fn parse_u64(s: &str) -> (r: Option<u64>)
    ensures
        match r {
            Some(n) => number(s@, u64::MAX as nat) == Some(n as nat),
            None => number(s@, u64::MAX as nat) is None,
        },
{
    let sv: Vec<char> = to_chars(s);
    let start: usize = if sv.len() > 0 && sv[0] == '+' {
        1
    } else {
        0
    };
    let ghost body = s@.skip(start as int);
    assert(s@.skip(0) =~= s@);
    if start == sv.len() {
        return None;
    }
    let mut n: u64 = 0;
    let mut i: usize = start;
    while i < sv.len()
        invariant
            sv@ == s@,
            start <= i <= sv.len(),
            start <= 1,
            body == s@.skip(start as int),
            n == digits_value(body.take(i - start)),
            all_digits(body.take(i - start)),
            body == if s@.len() > 0 && s@[0] == '+' {
                s@.skip(1)
            } else {
                s@
            },
        decreases sv.len() - i,
    {
        let c: char = sv[i];
        let ghost k = i - start;
        proof {
            assert(body[k] == c);
            assert(body.take(k + 1).drop_last() =~= body.take(k));
        }
        if !('0' <= c && c <= '9') {
            assert(!all_digits(body));
            return None;
        }
        let d: u64 = (c as u64) - 48;
        let overflow: bool = n > u64::MAX / 10 || (n == u64::MAX / 10 && d > u64::MAX % 10);
        if overflow {
            proof {
                assert(digits_value(body.take(k + 1)) == n * 10 + d);
                if all_digits(body) {
                    lemma_digits_value_grows(body, k + 1);
                }
            }
            return None;
        }
        n = n * 10 + d;
        proof {
            assert forall|m: int| 0 <= m < k + 1 implies is_digit(
                #[trigger] body.take(k + 1)[m],
            ) by {
                if m < k {
                    assert(body.take(k)[m] == body.take(k + 1)[m]);
                }
            }
        }
        i = i + 1;
    }
    assert(body.take(i - start) =~= body);
    Some(n)
}

/// Reads a number of at most 32 bits.
pub fn parse_u32(s: &str) -> (r: Option<u32>)
    ensures
        match r {
            Some(n) => number(s@, u32::MAX as nat) == Some(n as nat),
            None => number(s@, u32::MAX as nat) is None,
        },
{
    match parse_u64(s) {
        Some(n) => if n <= u32::MAX as u64 {
            Some(n as u32)
        } else {
            None
        },
        None => None,
    }
}

/// Reads a number of the size of a pointer.
pub fn parse_usize(s: &str) -> (r: Option<usize>)
    ensures
        match r {
            Some(n) => number(s@, usize::MAX as nat) == Some(n as nat),
            None => number(s@, usize::MAX as nat) is None,
        },
{
    match parse_u64(s) {
        Some(n) => if n <= usize::MAX as u64 {
            Some(n as usize)
        } else {
            None
        },
        None => None,
    }
}

/// The signed number that `s` reads as: decimal digits behind an optional sign.
pub open spec fn signed_number(s: Seq<char>) -> Option<int> {
    if s.len() > 0 && s[0] == '-' {
        let body = s.skip(1);
        if body.len() > 0 && all_digits(body) && digits_value(body) <= 0x8000_0000_0000_0000 {
            Some(-(digits_value(body) as int))
        } else {
            None
        }
    } else {
        match number(s, i64::MAX as nat) {
            Some(n) => Some(n as int),
            None => None,
        }
    }
}

/// Reads a signed 64-bit number.
pub fn parse_i64(s: &str) -> (r: Option<i64>)
    ensures
        match r {
            Some(n) => signed_number(s@) == Some(n as int),
            None => signed_number(s@) is None,
        },
{
    let sv: Vec<char> = to_chars(s);
    if sv.len() > 0 && sv[0] == '-' {
        let body: String = slice_text(&sv, 1, sv.len());
        assert(body@ =~= s@.skip(1));
        if sv.len() > 1 && sv[1] == '+' {
            assert(!is_digit(body@[0]));
            assert(!all_digits(body@));
            return None;
        }
        match parse_u64(body.as_str()) {
            Some(n) => {
                if n < 0x8000_0000_0000_0000 {
                    Some(-(n as i64))
                } else if n == 0x8000_0000_0000_0000 {
                    Some(i64::MIN)
                } else {
                    None
                }
            },
            None => None,
        }
    } else {
        match parse_u64(s) {
            Some(n) => {
                if n <= 0x7fff_ffff_ffff_ffff {
                    Some(n as i64)
                } else {
                    None
                }
            },
            None => None,
        }
    }
}

/// Reading a number's decimal text gives the number back.
pub proof fn law_decimal_reads_back(n: nat, max: nat)
    requires
        n <= max,
    ensures
        number(decimal(n), max) == Some(n),
{
    lemma_decimal(n);
    assert(is_digit(decimal(n)[0]));
}

proof fn lemma_decimal(n: nat)
    ensures
        decimal(n).len() > 0,
        all_digits(decimal(n)),
        digits_value(decimal(n)) == n,
    decreases n,
{
    let s = decimal(n);
    if n < 10 {
        assert(s.drop_last() =~= Seq::<char>::empty());
        assert(digits_value(s.drop_last()) == 0);
    } else {
        lemma_decimal(n / 10);
        assert(s.drop_last() =~= decimal(n / 10));
        assert forall|i: int| 0 <= i < s.len() implies is_digit(#[trigger] s[i]) by {
            if i < s.len() - 1 {
                assert(s[i] == decimal(n / 10)[i]);
            }
        }
    }
}

// ---------------------------------------------------------------------------
// Order
// ---------------------------------------------------------------------------

/// `a` sorts before `b`, character by character.
///
/// UTF-8 keeps the order of code points, so this is also the byte order.
pub open spec fn text_less(a: Seq<char>, b: Seq<char>) -> bool
    decreases a.len(),
{
    if b.len() == 0 {
        false
    } else if a.len() == 0 {
        true
    } else if a[0] == b[0] {
        text_less(a.skip(1), b.skip(1))
    } else {
        a[0] < b[0]
    }
}

proof fn lemma_text_less_irreflexive(a: Seq<char>)
    ensures
        !text_less(a, a),
    decreases a.len(),
{
    if a.len() > 0 {
        lemma_text_less_irreflexive(a.skip(1));
    }
}

proof fn lemma_text_less_transitive(a: Seq<char>, b: Seq<char>, c: Seq<char>)
    requires
        text_less(a, b),
        text_less(b, c),
    ensures
        text_less(a, c),
    decreases a.len(),
{
    if a.len() > 0 && b.len() > 0 && c.len() > 0 && a[0] == b[0] && b[0] == c[0] {
        lemma_text_less_transitive(a.skip(1), b.skip(1), c.skip(1));
    }
}

/// Two texts of which neither sorts before the other are equal.
pub proof fn lemma_text_less_total(a: Seq<char>, b: Seq<char>)
    requires
        !text_less(a, b),
        !text_less(b, a),
    ensures
        a == b,
    decreases a.len(),
{
    if a.len() > 0 && b.len() > 0 {
        lemma_text_less_total(a.skip(1), b.skip(1));
        assert(a =~= seq![a[0]] + a.skip(1));
        assert(b =~= seq![b[0]] + b.skip(1));
    } else {
        assert(a =~= b);
    }
}

/// The order of texts is a strict total order.
pub proof fn lemma_text_order()
    ensures
        forall|a: Seq<char>| !#[trigger] text_less(a, a),
        forall|a: Seq<char>, b: Seq<char>, c: Seq<char>| #[trigger]
            text_less(a, b) && #[trigger] text_less(b, c) ==> text_less(a, c),
{
    assert forall|a: Seq<char>| !#[trigger] text_less(a, a) by {
        lemma_text_less_irreflexive(a);
    }
    assert forall|a: Seq<char>, b: Seq<char>, c: Seq<char>| #[trigger]
        text_less(a, b) && #[trigger] text_less(b, c) implies text_less(a, c) by {
        lemma_text_less_transitive(a, b, c);
    }
}

impl crate::order::Ranked for String {
    open spec fn less(self, other: Self) -> bool {
        text_less(self@, other@)
    }

    proof fn less_is_weak_order() {
        assert forall|a: String| !#[trigger] a.less(a) by {
            lemma_text_less_irreflexive(a@);
        }
        assert forall|a: String, b: String, c: String| #[trigger]
            a.less(b) && #[trigger] b.less(c) implies a.less(c) by {
            lemma_text_less_transitive(a@, b@, c@);
        }
        assert forall|a: String, b: String, c: String| !#[trigger] a.less(b) && !#[trigger] b.less(
            c,
        ) implies !a.less(c) by {
            if a.less(c) {
                if c.less(b) {
                    lemma_text_less_transitive(a@, c@, b@);
                } else {
                    lemma_text_less_total(b@, c@);
                }
            }
        }
    }

    fn is_less(&self, other: &Self) -> (r: bool) {
        let a: Vec<char> = to_chars(self.as_str());
        let b: Vec<char> = to_chars(other.as_str());
        let mut i: usize = 0;
        assert(a@.skip(0) =~= a@);
        assert(b@.skip(0) =~= b@);
        while i < a.len() && i < b.len() && a[i] == b[i]
            invariant
                a@ == self@,
                b@ == other@,
                i <= a.len(),
                i <= b.len(),
                text_less(self@, other@) == text_less(a@.skip(i as int), b@.skip(i as int)),
            decreases a.len() - i,
        {
            assert(a@.skip(i as int).skip(1) =~= a@.skip(i + 1));
            assert(b@.skip(i as int).skip(1) =~= b@.skip(i + 1));
            i = i + 1;
        }
        if i == b.len() {
            false
        } else if i == a.len() {
            true
        } else {
            a[i] < b[i]
        }
    }
}

// ---------------------------------------------------------------------------
// Pieces and repetitions
// ---------------------------------------------------------------------------

proof fn lemma_pieces_not_empty(s: Seq<char>, sep: char)
    ensures
        pieces(s, sep).len() > 0,
    decreases s.len(),
{
    if s.len() > 0 {
        lemma_pieces_not_empty(s.drop_last(), sep);
    }
}

/// The last piece starts behind the last separator.
pub proof fn lemma_last_piece(s: Seq<char>, sep: char, i: int)
    requires
        0 <= i < s.len(),
        s[i] == sep,
        !s.skip(i + 1).contains(sep),
    ensures
        pieces(s, sep).last() == s.skip(i + 1),
    decreases s.len(),
{
    let front = s.drop_last();
    lemma_pieces_not_empty(front, sep);
    if i == s.len() - 1 {
        assert(s.skip(i + 1) =~= Seq::<char>::empty());
    } else {
        assert(s.last() != sep) by {
            assert(s.skip(i + 1)[s.len() - i - 2] == s.last());
        }
        let rest = front.skip(i + 1);
        assert(rest =~= s.skip(i + 1).drop_last());
        assert forall|k: int| 0 <= k < rest.len() implies #[trigger] rest[k] != sep by {
            assert(s.skip(i + 1)[k] == rest[k]);
        }
        lemma_last_piece(front, sep, i);
        assert(s.skip(i + 1) =~= front.skip(i + 1).push(s.last()));
    }
}

/// Without a separator the text is one piece.
pub proof fn lemma_no_piece(s: Seq<char>, sep: char)
    requires
        !s.contains(sep),
    ensures
        pieces(s, sep).last() == s,
        pieces(s, sep).len() == 1,
    decreases s.len(),
{
    if s.len() > 0 {
        let front = s.drop_last();
        assert(s[s.len() - 1] != sep);
        assert forall|k: int| 0 <= k < front.len() implies #[trigger] front[k] != sep by {
            assert(s[k] == front[k]);
        }
        lemma_pieces_not_empty(front, sep);
        lemma_no_piece(front, sep);
        assert(s =~= front.push(s.last()));
    }
}

/// What stands before and behind the first of a character, if there is one.
pub open spec fn cut(s: Seq<char>, c: char) -> Option<(Seq<char>, Seq<char>)>
    decreases s.len(),
{
    if s.len() == 0 {
        None
    } else if s[0] == c {
        Some((Seq::empty(), s.skip(1)))
    } else {
        match cut(s.skip(1), c) {
            Some((a, b)) => Some((seq![s[0]] + a, b)),
            None => None,
        }
    }
}

/// The cut is at the first place of the character.
pub proof fn lemma_cut(s: Seq<char>, c: char, i: int)
    requires
        0 <= i <= s.len(),
        forall|j: int| 0 <= j < i ==> #[trigger] s[j] != c,
        i < s.len() ==> s[i] == c,
    ensures
        i < s.len() ==> cut(s, c) == Some((s.take(i), s.skip(i + 1))),
        i == s.len() ==> cut(s, c) is None,
    decreases s.len(),
{
    if s.len() > 0 {
        if i == 0 {
            assert(s.take(0) =~= Seq::<char>::empty());
        } else {
            let rest = s.skip(1);
            assert forall|j: int| 0 <= j < i - 1 implies #[trigger] rest[j] != c by {
                assert(rest[j] == s[j + 1]);
            }
            lemma_cut(rest, c, i - 1);
            assert(s[0] != c);
            assert(seq![s[0]] + rest.take(i - 1) =~= s.take(i));
            if i < s.len() {
                assert(rest.skip(i) =~= s.skip(i + 1));
            }
        }
    }
}

/// Cuts a text at the first of a character.
pub fn split_once(s: &str, c: char) -> (r: Option<(String, String)>)
    ensures
        match r {
            Some(p) => cut(s@, c) == Some((p.0@, p.1@)),
            None => cut(s@, c) is None,
        },
{
    let sv: Vec<char> = to_chars(s);
    let mut i: usize = 0;
    while i < sv.len() && sv[i] != c
        invariant
            i <= sv.len(),
            sv@ == s@,
            forall|j: int| 0 <= j < i ==> #[trigger] s@[j] != c,
        decreases sv.len() - i,
    {
        i = i + 1;
    }
    proof {
        lemma_cut(s@, c, i as int);
    }
    if i == sv.len() {
        return None;
    }
    assert(s@.subrange(0, i as int) =~= s@.take(i as int));
    assert(s@.subrange(i + 1, s@.len() as int) =~= s@.skip(i + 1));
    Some((slice_text(&sv, 0, i), slice_text(&sv, i + 1, sv.len())))
}

/// What stands behind the last separator; all of the text where there is none.
pub fn last_piece(s: &str, sep: char) -> (r: String)
    ensures
        r@ == pieces(s@, sep).last(),
{
    let parts: Vec<String> = split(s, sep);
    proof {
        lemma_pieces_not_empty(s@, sep);
        assert(texts(parts@).len() == parts.len());
        assert(texts(parts@)[parts.len() - 1] == parts@[parts.len() - 1]@);
    }
    parts[parts.len() - 1].clone()
}

/// Marks each text that did not occur before.
pub fn first_occurrences(keys: &Vec<String>) -> (r: Vec<bool>)
    ensures
        r.len() == keys.len(),
        forall|i: int|
            0 <= i < keys.len() ==> #[trigger] r@[i] == !texts(keys@).take(i).contains(keys@[i]@),
{
    let order: Vec<usize> = crate::order::sorted_order(keys);
    let mut r: Vec<bool> = Vec::new();
    let mut i: usize = 0;
    while i < keys.len()
        invariant
            i <= keys.len(),
            r.len() == i,
        decreases keys.len() - i,
    {
        r.push(true);
        i = i + 1;
    }
    let mut p: usize = 0;
    while p < order.len()
        invariant
            p <= order.len(),
            r.len() == keys.len(),
            crate::order::is_sorted_order(keys@, order@),
            forall|q: int|
                0 <= q < p ==> r@[#[trigger] order@[q] as int] == !texts(keys@).take(
                    order@[q] as int,
                ).contains(keys@[order@[q] as int]@),
        decreases order.len() - p,
    {
        let ghost at = order@[p as int] as int;
        assert(at < keys.len());
        let fresh: bool = if p == 0 {
            true
        } else {
            assert(order@[p - 1] < keys.len());
            !same(keys[order[p]].as_str(), keys[order[p - 1]].as_str())
        };
        proof {
            lemma_first_in_order(keys@, order@, p as int);
            assert forall|q: int| 0 <= q < p implies #[trigger] order@[q] != at by {
                assert(crate::order::comes_before(keys@, order@[q] as int, at));
                lemma_text_order();
            }
        }
        r.set(order[p], fresh);
        p = p + 1;
    }
    proof {
        assert forall|i: int| 0 <= i < keys.len() implies #[trigger] r@[i] == !texts(
            keys@,
        ).take(i).contains(keys@[i]@) by {
            assert(order@.contains(i as usize));
            let q = choose|q: int| 0 <= q < order@.len() && order@[q] == i as usize;
            assert(r@[order@[q] as int] == !texts(keys@).take(order@[q] as int).contains(
                keys@[order@[q] as int]@,
            ));
        }
    }
    r
}

proof fn lemma_first_in_order(keys: Seq<String>, order: Seq<usize>, p: int)
    requires
        crate::order::is_sorted_order(keys, order),
        0 <= p < order.len(),
        forall|q: int| 0 <= q < order.len() ==> #[trigger] order[q] < keys.len(),
    ensures
        texts(keys).take(order[p] as int).contains(keys[order[p] as int]@) == (p > 0 && keys[order[p
            - 1] as int]@ == keys[order[p] as int]@),
{
    let i = order[p] as int;
    lemma_text_order();
    let before = texts(keys).take(i);
    if p > 0 && keys[order[p - 1] as int]@ == keys[i]@ {
        let j = order[p - 1] as int;
        assert(crate::order::comes_before(keys, j, i));
        assert(j < i);
        assert(before[j] == keys[j]@);
    }
    if before.contains(keys[i]@) {
        let j = choose|j: int| 0 <= j < before.len() && before[j] == keys[i]@;
        assert(keys[j]@ == keys[i]@);
        assert(order.contains(j as usize));
        let q = choose|q: int| 0 <= q < order.len() && order[q] == j as usize;
        if q > p {
            assert(crate::order::comes_before(keys, order[p] as int, order[q] as int));
        }
        assert(q < p);
        if q < p - 1 {
            assert(crate::order::comes_before(keys, order[q] as int, order[p - 1] as int));
            assert(crate::order::comes_before(keys, order[p - 1] as int, order[p] as int));
            let m = keys[order[p - 1] as int]@;
            assert(!text_less(m, keys[j]@));
            assert(!text_less(keys[i]@, m));
            lemma_text_less_total(keys[i]@, m);
        }
    }
}

// ---------------------------------------------------------------------------
// Bytes
// ---------------------------------------------------------------------------

/// `String::from_utf8`: the text that bytes encode, `None` where they are not
/// valid UTF-8.
#[verifier::external_body]
pub(crate) fn utf8_text(bytes: Vec<u8>) -> (r: Option<String>)
    ensures
        match r {
            Some(t) => vstd::utf8::valid_utf8(bytes@) && t@ == vstd::utf8::decode_utf8(bytes@),
            None => !vstd::utf8::valid_utf8(bytes@),
        },
{
    String::from_utf8(bytes).ok()
}

/// The lower-case hexadecimal digit of a number below sixteen.
pub open spec fn hex_digit(d: int) -> char {
    if d < 10 {
        ('0' as int + d) as char
    } else {
        ('a' as int + d - 10) as char
    }
}

/// Two lower-case hexadecimal digits for each byte.
pub open spec fn hex(bytes: Seq<u8>) -> Seq<char>
    decreases bytes.len(),
{
    if bytes.len() == 0 {
        Seq::empty()
    } else {
        hex(bytes.drop_last()).push(hex_digit(bytes.last() as int / 16)).push(
            hex_digit(bytes.last() as int % 16),
        )
    }
}

fn hex_char(d: u8) -> (r: char)
    requires
        d < 16,
    ensures
        r == hex_digit(d as int),
{
    if d < 10 {
        (0x30 + d) as char
    } else {
        (0x61 + (d - 10)) as char
    }
}

/// Writes bytes as lower-case hexadecimal digits.
pub fn hex_text(bytes: &Vec<u8>) -> (r: String)
    ensures
        r@ == hex(bytes@),
{
    let mut chars: Vec<char> = Vec::new();
    let mut i: usize = 0;
    while i < bytes.len()
        invariant
            i <= bytes.len(),
            chars@ == hex(bytes@.take(i as int)),
        decreases bytes.len() - i,
    {
        assert(bytes@.take(i + 1).drop_last() =~= bytes@.take(i as int));
        chars.push(hex_char(bytes[i] / 16));
        chars.push(hex_char(bytes[i] % 16));
        i = i + 1;
    }
    assert(bytes@.take(i as int) =~= bytes@);
    from_chars(&chars)
}

// ---------------------------------------------------------------------------
// Laws
// ---------------------------------------------------------------------------

/// A number that is written reads back, whatever its sign.
pub proof fn law_signed_decimal_reads_back(n: int)
    requires
        i64::MIN <= n <= i64::MAX,
    ensures
        signed_number(signed_decimal(n)) == Some(n),
{
    if n < 0 {
        lemma_decimal((-n) as nat);
        assert(signed_decimal(n).skip(1) =~= decimal((-n) as nat));
    } else {
        law_decimal_reads_back(n as nat, i64::MAX as nat);
        lemma_decimal(n as nat);
        assert(is_digit(decimal(n as nat)[0]));
    }
}

/// A text is its pieces with the separator between them, and no piece holds the separator.
pub proof fn law_pieces_join(s: Seq<char>, sep: char)
    ensures
        joined(pieces(s, sep), seq![sep]) == s,
        forall|i: int|
            0 <= i < pieces(s, sep).len() ==> !(#[trigger] pieces(s, sep)[i]).contains(sep),
    decreases s.len(),
{
    let ps = pieces(s, sep);
    if s.len() > 0 {
        let front = s.drop_last();
        let before = pieces(front, sep);
        law_pieces_join(front, sep);
        lemma_pieces_nonempty(front, sep);
        assert(s =~= front.push(s.last()));
        if s.last() == sep {
            assert(ps.drop_last() =~= before);
            assert(joined(ps, seq![sep]) =~= front + seq![sep] + Seq::<char>::empty());
        } else {
            assert(ps.drop_last() =~= before.drop_last());
            assert(ps.last() == before.last().push(s.last()));
            assert(joined(ps, seq![sep]) =~= joined(before, seq![sep]).push(s.last()));
            assert forall|i: int| 0 <= i < ps.len() implies !(#[trigger] ps[i]).contains(sep) by {
                if i < before.len() - 1 {
                    assert(ps[i] == before[i]);
                } else {
                    assert(!before[i].contains(sep));
                    let last = before[i].push(s.last());
                    assert forall|k: int| 0 <= k < last.len() implies last[k] != sep by {
                        if k < before[i].len() {
                            assert(before[i].contains(before[i][k]));
                        }
                    }
                }
            }
        }
    } else {
        assert(joined(ps, seq![sep]) == ps[0]);
        assert(s =~= Seq::<char>::empty());
    }
}

/// Text that holds no such character is left as it is, and text is replaced piece by piece.
pub proof fn law_characters_are_replaced(a: Seq<char>, b: Seq<char>, c: char, with: Seq<char>)
    ensures
        !a.contains(c) ==> replaced_char(a, c, with) == a,
        replaced_char(a + seq![c] + b, c, with) == replaced_char(a, c, with) + with + replaced_char(
            b,
            c,
            with,
        ),
    decreases a.len() + b.len(),
{
    if !a.contains(c) && a.len() > 0 {
        let front = a.drop_last();
        assert(a[a.len() - 1] == a.last());
        assert(a.last() != c);
        assert forall|k: int| 0 <= k < front.len() implies front[k] != c by {
            assert(a.contains(a[k]));
        }
        law_characters_are_replaced(front, Seq::empty(), c, with);
        assert(a =~= front + seq![a.last()]);
    }
    let whole = a + seq![c] + b;
    if b.len() == 0 {
        assert(whole.drop_last() =~= a);
        assert(whole.last() == c);
        assert(replaced_char(b, c, with) =~= Seq::<char>::empty());
    } else {
        law_characters_are_replaced(a, b.drop_last(), c, with);
        assert(whole.drop_last() =~= a + seq![c] + b.drop_last());
        assert(whole.last() == b.last());
    }
}

/// The first place of a pattern is replaced, and then what stands behind it; without such
/// a place the text is left as it is.
pub proof fn law_patterns_are_replaced(s: Seq<char>, pat: Seq<char>, with: Seq<char>)
    requires
        pat.len() > 0,
    ensures
        !occurs(s, pat) ==> replaced(s, pat, with) == s,
        forall|i: int| #[trigger]
            first_at(s, pat, i) ==> replaced(s, pat, with) == s.take(i) + with + replaced(
                s.skip(i + pat.len()),
                pat,
                with,
            ),
    decreases s.len(),
{
    if s.len() > 0 {
        if pat.is_prefix_of(s) {
            assert(occurs_at(s, pat, 0));
            assert forall|i: int| #[trigger] first_at(s, pat, i) implies replaced(s, pat, with)
                == s.take(i) + with + replaced(s.skip(i + pat.len()), pat, with) by {
                assert(i == 0);
                assert(s.take(0) =~= Seq::<char>::empty());
            }
        } else {
            let rest = s.skip(1);
            law_patterns_are_replaced(rest, pat, with);
            assert(!occurs_at(s, pat, 0)) by {
                if occurs_at(s, pat, 0) {
                    assert(s.subrange(0, pat.len() as int) == pat);
                }
            }
            assert forall|j: int| occurs_at(rest, pat, j) == (j >= 0 && #[trigger] occurs_at(
                s,
                pat,
                j + 1,
            )) by {
                if 0 <= j && j + pat.len() <= rest.len() {
                    assert(rest.subrange(j, j + pat.len()) =~= s.subrange(
                        j + 1,
                        j + 1 + pat.len(),
                    ));
                }
            }
            if !occurs(s, pat) {
                assert forall|j: int| !occurs_at(rest, pat, j) by {
                    assert(!occurs_at(s, pat, j + 1));
                }
                assert(s =~= seq![s[0]] + rest);
            }
            assert forall|i: int| #[trigger] first_at(s, pat, i) implies replaced(s, pat, with)
                == s.take(i) + with + replaced(s.skip(i + pat.len()), pat, with) by {
                assert(i > 0);
                assert(occurs_at(s, pat, (i - 1) + 1));
                assert forall|j: int| 0 <= j < i - 1 implies !occurs_at(rest, pat, j) by {
                    assert(!occurs_at(s, pat, j + 1));
                }
                assert(first_at(rest, pat, i - 1));
                assert(s.take(i) =~= seq![s[0]] + rest.take(i - 1));
                assert(rest.skip(i - 1 + pat.len()) =~= s.skip(i + pat.len()));
            }
        }
    } else {
        assert forall|i: int| !#[trigger] first_at(s, pat, i) by {}
    }
}

/// What is trimmed off is white space, and all of it at either end.
pub proof fn law_white_space_is_trimmed(s: Seq<char>)
    ensures
        exists|i: int, j: int|
            {
                &&& 0 <= i <= j <= s.len()
                &&& trimmed(s) == #[trigger] s.subrange(i, j)
                &&& forall|k: int| 0 <= k < i || j <= k < s.len() ==> is_space(#[trigger] s[k])
            },
        trimmed(s).len() > 0 ==> !is_space(trimmed(s)[0]) && !is_space(trimmed(s).last()),
{
    let i = lemma_trimmed_start(s);
    let t = s.skip(i);
    let j = lemma_trimmed_end(t);
    assert(t.take(j) =~= s.subrange(i, i + j));
    assert forall|k: int| 0 <= k < i || i + j <= k < s.len() implies is_space(
        #[trigger] s[k],
    ) by {
        if k >= i + j {
            assert(t[k - i] == s[k]);
        }
    }
    if trimmed(s).len() > 0 {
        assert(trimmed(s)[0] == t[0]);
    }
    assert(trimmed(s) == s.subrange(i, i + j));
}

proof fn lemma_trimmed_start(s: Seq<char>) -> (i: int)
    ensures
        0 <= i <= s.len(),
        trimmed_start(s) == s.skip(i),
        forall|k: int| 0 <= k < i ==> is_space(#[trigger] s[k]),
        i < s.len() ==> !is_space(s[i]),
    decreases s.len(),
{
    if s.len() > 0 && is_space(s[0]) {
        let rest = s.skip(1);
        let i = lemma_trimmed_start(rest);
        assert forall|k: int| 0 <= k < i + 1 implies is_space(#[trigger] s[k]) by {
            if k > 0 {
                assert(rest[k - 1] == s[k]);
            }
        }
        assert(rest.skip(i) =~= s.skip(i + 1));
        if i < rest.len() {
            assert(rest[i] == s[i + 1]);
        }
        i + 1
    } else {
        assert(s.skip(0) =~= s);
        0
    }
}

proof fn lemma_trimmed_end(s: Seq<char>) -> (j: int)
    ensures
        0 <= j <= s.len(),
        trimmed_end(s) == s.take(j),
        forall|k: int| j <= k < s.len() ==> is_space(#[trigger] s[k]),
        j > 0 ==> !is_space(s[j - 1]),
    decreases s.len(),
{
    if s.len() > 0 && is_space(s.last()) {
        let front = s.drop_last();
        let j = lemma_trimmed_end(front);
        assert forall|k: int| j <= k < s.len() implies is_space(#[trigger] s[k]) by {
            if k < front.len() {
                assert(front[k] == s[k]);
            }
        }
        assert(front.take(j) =~= s.take(j));
        j
    } else {
        assert(s.take(s.len() as int) =~= s);
        s.len() as int
    }
}

/// A character is taken off an end as often as it stands there.
pub proof fn law_ends_are_stripped(s: Seq<char>, c: char)
    ensures
        without_trailing(s.push(c), c) == without_trailing(s, c),
        without_leading(seq![c] + s, c) == without_leading(s, c),
        s.len() > 0 && s.last() != c ==> without_trailing(s, c) == s,
        s.len() > 0 && s[0] != c ==> without_leading(s, c) == s,
        without_trailing(Seq::empty(), c) == Seq::<char>::empty(),
        without_leading(Seq::empty(), c) == Seq::<char>::empty(),
{
    assert(s.push(c).drop_last() =~= s);
    assert((seq![c] + s).skip(1) =~= s);
}

/// A text is cut at the first place of a character: the parts with the character between them
/// are the text, and the first part does not hold it. Without such a place it is not cut.
pub proof fn law_text_is_cut_at_the_first_place(s: Seq<char>, c: char)
    ensures
        cut(s, c) is Some <==> s.contains(c),
        cut(s, c) matches Some((a, b)) ==> s == a + seq![c] + b && !a.contains(c),
    decreases s.len(),
{
    if s.len() > 0 {
        let rest = s.skip(1);
        law_text_is_cut_at_the_first_place(rest, c);
        assert(s =~= seq![s[0]] + rest);
        if s[0] == c {
            assert(s =~= Seq::<char>::empty() + seq![c] + rest);
        } else {
            if s.contains(c) {
                let k = choose|k: int| 0 <= k < s.len() && s[k] == c;
                assert(rest[k - 1] == c);
            }
            if rest.contains(c) {
                let k = choose|k: int| 0 <= k < rest.len() && rest[k] == c;
                assert(s[k + 1] == c);
            }
            if let Some((a, b)) = cut(rest, c) {
                assert(s =~= seq![s[0]] + a + seq![c] + b);
                let all = seq![s[0]] + a;
                assert forall|k: int| 0 <= k < all.len() implies all[k] != c by {
                    if k > 0 {
                        assert(a.contains(a[k - 1]));
                        assert(all[k] == a[k - 1]);
                    }
                }
            }
        }
    }
}

/// Words hold no white space and are not empty, and white space between words does not count.
pub proof fn law_words_are_free_of_space(s: Seq<char>)
    ensures
        forall|i: int| 0 <= i < words(s).len() ==> (#[trigger] words(s)[i]).len() > 0,
        forall|i: int, k: int|
            0 <= i < words(s).len() && 0 <= k < words(s)[i].len() ==> !is_space(
                #[trigger] words(s)[i][k],
            ),
        forall|c: char| is_space(c) ==> #[trigger] words(seq![c] + s) == words(s),
        word(s) is None <==> words(s).len() == 0,
        word(s) matches Some(w) ==> words(s).len() > 0 && w == words(s)[0],
    decreases s.len(),
{
    assert forall|c: char| is_space(c) implies #[trigger] words(seq![c] + s) == words(s) by {
        assert((seq![c] + s).skip(1) =~= s);
    }
    if s.len() > 0 {
        if is_space(s[0]) {
            law_words_are_free_of_space(s.skip(1));
        } else {
            let n = word_len(s) as int;
            lemma_word_len(s);
            lemma_word_is_free(s);
            let rest = s.skip(n);
            law_words_are_free_of_space(rest);
            let all = words(s);
            assert(all =~= seq![s.take(n)] + words(rest));
            assert forall|i: int, k: int|
                0 <= i < all.len() && 0 <= k < all[i].len() implies !is_space(
                #[trigger] all[i][k],
            ) by {
                if i > 0 {
                    assert(all[i] == words(rest)[i - 1]);
                    assert(!is_space(words(rest)[i - 1][k]));
                }
            }
            assert forall|i: int| 0 <= i < all.len() implies (#[trigger] all[i]).len() > 0 by {
                if i > 0 {
                    assert(all[i] == words(rest)[i - 1]);
                }
            }
        }
    }
}

proof fn lemma_word_is_free(s: Seq<char>)
    ensures
        word_len(s) <= s.len(),
        forall|k: int| 0 <= k < word_len(s) ==> !is_space(#[trigger] s[k]),
    decreases s.len(),
{
    if s.len() > 0 && !is_space(s[0]) {
        let rest = s.skip(1);
        lemma_word_is_free(rest);
        assert forall|k: int| 0 <= k < word_len(s) implies !is_space(#[trigger] s[k]) by {
            if k > 0 {
                assert(rest[k - 1] == s[k]);
            }
        }
    }
}

/// Lower case changes the capital letters alone, and is the same when it is taken again.
pub proof fn law_lower_case(s: Seq<char>)
    ensures
        lowered(lowered(s)) == lowered(s),
        lowered(s).len() == s.len(),
        forall|i: int|
            0 <= i < s.len() && !('A' <= s[i] <= 'Z') ==> #[trigger] lowered(s)[i] == s[i],
        forall|i: int|
            0 <= i < s.len() && 'A' <= s[i] <= 'Z' ==> 'a' <= #[trigger] lowered(s)[i] <= 'z'
                && lowered(s)[i] as int - 'a' as int == s[i] as int - 'A' as int,
{
    assert(lowered(lowered(s)) =~= lowered(s));
}

/// The number of a hexadecimal digit.
pub open spec fn hex_value(c: char) -> int {
    if '0' <= c <= '9' {
        c as int - '0' as int
    } else {
        10 + c as int - 'a' as int
    }
}

/// A byte is written as two digits, the higher one first.
pub proof fn law_bytes_are_two_digits(bytes: Seq<u8>)
    ensures
        hex(bytes).len() == 2 * bytes.len(),
        forall|i: int|
            0 <= i < bytes.len() ==> #[trigger] bytes[i] == 16 * hex_value(hex(bytes)[2 * i])
                + hex_value(hex(bytes)[2 * i + 1]),
    decreases bytes.len(),
{
    if bytes.len() > 0 {
        let front = bytes.drop_last();
        law_bytes_are_two_digits(front);
        assert forall|i: int| 0 <= i < bytes.len() implies #[trigger] bytes[i] == 16 * hex_value(
            hex(bytes)[2 * i],
        ) + hex_value(hex(bytes)[2 * i + 1]) by {
            if i < front.len() {
                assert(front[i] == bytes[i]);
                assert(hex(bytes)[2 * i] == hex(front)[2 * i]);
                assert(hex(bytes)[2 * i + 1] == hex(front)[2 * i + 1]);
            }
        }
    }
}

/// A number is written in digits alone, without white space.
pub proof fn law_decimal_is_bare(n: nat)
    ensures
        decimal(n).len() > 0,
        all_digits(decimal(n)),
        trimmed(decimal(n)) == decimal(n),
{
    lemma_decimal(n);
    assert(is_digit(decimal(n)[0]));
    assert(is_digit(decimal(n)[decimal(n).len() - 1]));
}

} // verus!
