use vstd::prelude::*;
use vstd::utf8::*;

verus! {

/// Name for what `String::from_utf8_lossy` gives for `bytes`: the bytes
/// decoded as UTF-8, each invalid sequence replaced by U+FFFD.
pub uninterp spec fn utf8_lossy(bytes: Seq<u8>) -> Seq<char>;

/// Calls `String::from_utf8_lossy`. Trusted: the text equals `utf8_lossy`
/// of the bytes, and, as std documents, valid UTF-8 comes back decoded
/// unchanged.
#[verifier::external_body]
pub(crate) fn text_from_bytes_lossy(bytes: &[u8]) -> (text: String)
    ensures
        text@ == utf8_lossy(bytes@),
        valid_utf8(bytes@) ==> text@ == decode_utf8(bytes@),
{
    String::from_utf8_lossy(bytes).into_owned()
}


/// `sep` occurs in `s` at position `i`.
pub open spec fn occurs_at(s: Seq<char>, sep: Seq<char>, i: int) -> bool {
    0 <= i && i + sep.len() <= s.len() && s.subrange(i, i + sep.len()) == sep
}

/// The first position at or after `from` where `sep` occurs in `s`.
pub open spec fn find_from(s: Seq<char>, sep: Seq<char>, from: int) -> Option<int>
    decreases s.len() - from,
{
    if from < 0 || sep.len() == 0 || from + sep.len() > s.len() {
        None
    } else if occurs_at(s, sep, from) {
        Some(from)
    } else {
        find_from(s, sep, from + 1)
    }
}

/// The pieces of `s[from..]` between occurrences of `sep`, found left to
/// right without overlap, as `str::split` cuts them.
pub open spec fn split_from(s: Seq<char>, sep: Seq<char>, from: int) -> Seq<Seq<char>>
    decreases s.len() - from,
{
    if sep.len() == 0 || from < 0 || from > s.len() {
        Seq::empty()
    } else {
        match find_from(s, sep, from) {
            None => seq![s.subrange(from, s.len() as int)],
            Some(j) => if j < from || j + sep.len() > s.len() {
                Seq::empty()
            } else {
                seq![s.subrange(from, j)] + split_from(s, sep, j + sep.len())
            },
        }
    }
}

/// `s` cut at each occurrence of `sep`, as `str::split` cuts it.
pub open spec fn split(s: Seq<char>, sep: Seq<char>) -> Seq<Seq<char>> {
    split_from(s, sep, 0)
}

/// The views of a sequence of string slices.
pub open spec fn str_views(v: Seq<&str>) -> Seq<Seq<char>> {
    v.map_values(|p: &str| p@)
}

/// A position that `find_from` returns is at or after `from`, and `sep` occurs there.
pub proof fn lemma_find_from(s: Seq<char>, sep: Seq<char>, from: int)
    ensures
        find_from(s, sep, from) matches Some(j) ==> from <= j && occurs_at(s, sep, j),
    decreases s.len() - from,
{
    if !(from < 0 || sep.len() == 0 || from + sep.len() > s.len()) && !occurs_at(s, sep, from) {
        lemma_find_from(s, sep, from + 1);
    }
}

/// `find_from` gives the first occurrence: `sep` occurs nowhere between
/// `from` and the position it returns, nor anywhere after `from` when it
/// returns none.
pub proof fn lemma_find_from_first(s: Seq<char>, sep: Seq<char>, from: int)
    requires
        0 <= from,
        sep.len() > 0,
    ensures
        find_from(s, sep, from) matches Some(j) ==> forall|k: int|
            from <= k < j ==> !occurs_at(s, sep, k),
        find_from(s, sep, from) is None ==> forall|k: int| from <= k ==> !occurs_at(s, sep, k),
    decreases s.len() - from,
{
    if !(from + sep.len() > s.len()) && !occurs_at(s, sep, from) {
        lemma_find_from_first(s, sep, from + 1);
    }
}

/// The first piece of a split is where the cut starts, holds no `sep`, and,
/// when more pieces follow, is followed by `sep` and the split of the rest.
pub proof fn lemma_split_first(s: Seq<char>, sep: Seq<char>, from: int)
    requires
        sep.len() > 0,
        0 <= from <= s.len(),
    ensures
        split_from(s, sep, from).len() >= 1,
        from + split_from(s, sep, from)[0].len() <= s.len(),
        s.subrange(from, from + split_from(s, sep, from)[0].len()) == split_from(s, sep, from)[0],
        forall|k: int|
            from <= k && k + sep.len() <= from + split_from(s, sep, from)[0].len() ==> !occurs_at(
                s,
                sep,
                k,
            ),
        split_from(s, sep, from).len() >= 2 ==> {
            let j = from + split_from(s, sep, from)[0].len();
            &&& occurs_at(s, sep, j)
            &&& split_from(s, sep, j + sep.len()) == split_from(s, sep, from).drop_first()
        },
{
    lemma_find_from(s, sep, from);
    lemma_find_from_first(s, sep, from);
    let ps = split_from(s, sep, from);
    match find_from(s, sep, from) {
        None => {
            assert(ps.len() == 1);
        },
        Some(j) => {
            lemma_find_from(s, sep, from);
            assert(ps[0] == s.subrange(from, j));
            assert(ps.drop_first() =~= split_from(s, sep, j + sep.len()));
            if ps.len() >= 2 {
                assert(from + ps[0].len() == j);
            }
        },
    }
}

/// Every piece of a split is a stretch of `s`.
pub proof fn lemma_split_pieces_in(s: Seq<char>, sep: Seq<char>, from: int, i: int)
    requires
        sep.len() > 0,
        0 <= from <= s.len(),
        0 <= i < split_from(s, sep, from).len(),
    ensures
        exists|p: int|
            from <= p && p + split_from(s, sep, from)[i].len() <= s.len() && #[trigger] s.subrange(
                p,
                p + split_from(s, sep, from)[i].len(),
            ) == split_from(s, sep, from)[i],
    decreases s.len() - from,
{
    lemma_split_first(s, sep, from);
    let ps = split_from(s, sep, from);
    if i == 0 {
        assert(s.subrange(from, from + ps[0].len()) == ps[0]);
    } else {
        let j = from + ps[0].len();
        lemma_find_from(s, sep, from);
        lemma_split_pieces_in(s, sep, j + sep.len(), i - 1);
        assert(split_from(s, sep, j + sep.len())[i - 1] == ps[i]);
        let p = choose|p: int|
            j + sep.len() <= p && p + split_from(s, sep, j + sep.len())[i - 1].len() <= s.len()
                && #[trigger] s.subrange(p, p + split_from(s, sep, j + sep.len())[i - 1].len())
                == split_from(s, sep, j + sep.len())[i - 1];
        assert(s.subrange(p, p + ps[i].len()) == ps[i]);
    }
}

/// Whatever `s` and `from` (within `s`), `split_from` gives at least one piece.
pub proof fn lemma_split_nonempty(s: Seq<char>, sep: Seq<char>, from: int)
    requires
        sep.len() > 0,
        0 <= from <= s.len(),
    ensures
        split_from(s, sep, from).len() >= 1,
{
    lemma_find_from(s, sep, from);
}

/// The characters of `s`.
pub fn chars_of(s: &str) -> (v: Vec<char>)
    ensures
        v@ == s@,
{
    let n = s.unicode_len();
    let mut v: Vec<char> = Vec::new();
    let mut i: usize = 0;
    while i < n
        invariant
            n == s@.len(),
            i <= n,
            v@ =~= s@.subrange(0, i as int),
        decreases n - i,
    {
        v.push(s.get_char(i));
        i = i + 1;
    }
    proof {
        assert(s@.subrange(0, n as int) =~= s@);
    }
    v
}

/// Whether `sep` occurs in `s` at position `i`.
fn occurs_at_exec(s: &Vec<char>, sep: &Vec<char>, i: usize) -> (b: bool)
    ensures
        b == occurs_at(s@, sep@, i as int),
{
    if i > s.len() || sep.len() > s.len() - i {
        return false;
    }
    let n = s.len();
    let mut k: usize = 0;
    while k < sep.len()
        invariant
            n == s@.len(),
            i + sep@.len() <= s@.len(),
            i <= s@.len(),
            k <= sep@.len(),
            forall|m: int| 0 <= m < k ==> s@[i + m] == sep@[m],
        decreases sep@.len() - k,
    {
        if s[i + k] != sep[k] {
            proof {
                assert(s@.subrange(i as int, i + sep@.len())[k as int] != sep@[k as int]);
            }
            return false;
        }
        k = k + 1;
    }
    proof {
        assert(s@.subrange(i as int, i + sep@.len()) =~= sep@);
    }
    true
}

/// The first position where `sep` occurs in `s`.
pub fn find_str(s: &str, sep: &str) -> (r: Option<usize>)
    ensures
        r matches Some(j) ==> find_from(s@, sep@, 0) == Some(j as int),
        r is None ==> find_from(s@, sep@, 0) is None,
{
    let cs = chars_of(s);
    let sp = chars_of(sep);
    let mut i: usize = 0;
    while sp.len() > 0 && i < cs.len() && sp.len() <= cs.len() - i
        invariant
            cs@ == s@,
            sp@ == sep@,
            i <= cs@.len(),
            find_from(s@, sep@, 0) == find_from(s@, sep@, i as int),
        decreases cs@.len() - i,
    {
        if occurs_at_exec(&cs, &sp, i) {
            return Some(i);
        }
        i = i + 1;
    }
    None
}

/// `s` cut at each occurrence of `sep`, as `str::split` cuts it.
pub fn split_str<'a>(s: &'a str, sep: &str) -> (pieces: Vec<&'a str>)
    requires
        sep@.len() > 0,
    ensures
        str_views(pieces@) == split(s@, sep@),
{
    let cs = chars_of(s);
    let sp = chars_of(sep);
    let mut pieces: Vec<&'a str> = Vec::new();
    let mut start: usize = 0;
    let mut i: usize = 0;
    while i < cs.len() && sp.len() <= cs.len() - i
        invariant
            cs@ == s@,
            sp@ == sep@,
            sep@.len() > 0,
            start <= i <= cs@.len(),
            find_from(s@, sep@, start as int) == find_from(s@, sep@, i as int),
            split(s@, sep@) =~= str_views(pieces@) + split_from(s@, sep@, start as int),
        decreases cs@.len() - i,
    {
        if occurs_at_exec(&cs, &sp, i) {
            let piece = s.substring_char(start, i);
            proof {
                assert(str_views(pieces@.push(piece)) =~= str_views(pieces@).push(piece@));
            }
            pieces.push(piece);
            start = i + sp.len();
            i = start;
        } else {
            i = i + 1;
        }
    }
    let last = s.substring_char(start, cs.len());
    proof {
        assert(str_views(pieces@.push(last)) =~= str_views(pieces@).push(last@));
    }
    pieces.push(last);
    pieces
}

/// Whether `a` and `b` hold the same characters.
pub fn str_eq(a: &str, b: &str) -> (r: bool)
    ensures
        r == (a@ == b@),
{
    let ca = chars_of(a);
    let cb = chars_of(b);
    if ca.len() != cb.len() {
        return false;
    }
    let mut k: usize = 0;
    while k < ca.len()
        invariant
            ca@ == a@,
            cb@ == b@,
            ca@.len() == cb@.len(),
            k <= ca@.len(),
            forall|m: int| 0 <= m < k ==> a@[m] == b@[m],
        decreases ca@.len() - k,
    {
        if ca[k] != cb[k] {
            return false;
        }
        k = k + 1;
    }
    proof {
        assert(a@ =~= b@);
    }
    true
}

} // verus!
