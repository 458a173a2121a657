//! Byte sequences: finding a separator, splitting on it and joining again.

use vstd::prelude::*;

verus! {

/// `:` between a name and a value.
pub const COLON: u8 = 58;

/// `,` between two tags.
pub const COMMA: u8 = 44;

/// `|` between two fields of a metric line.
pub const PIPE: u8 = 124;

/// `#` which, after a `|`, opens the tag segment.
pub const HASH: u8 = 35;

/// Line feed between two metric lines of one datagram.
pub const NEWLINE: u8 = 10;

/// Index of the first `b` in `s`, or `s.len()` where `s` holds none.
pub open spec fn first_index(s: Seq<u8>, b: u8) -> int
    decreases s.len(),
{
    if s.len() == 0 {
        0
    } else if s[0] == b {
        0
    } else {
        1 + first_index(s.drop_first(), b)
    }
}

/// `first_index` is in range, points at a `b` unless it is the length, and
/// no `b` stands before it.
pub proof fn lemma_first_index(s: Seq<u8>, b: u8)
    ensures
        0 <= first_index(s, b) <= s.len(),
        first_index(s, b) < s.len() ==> s[first_index(s, b)] == b,
        forall|k: int| 0 <= k < first_index(s, b) ==> s[k] != b,
    decreases s.len(),
{
    if s.len() != 0 && s[0] != b {
        let t = s.drop_first();
        lemma_first_index(t, b);
        assert forall|k: int| 0 <= k < first_index(s, b) implies s[k] != b by {
            if k > 0 {
                assert(s[k] == t[k - 1]);
            }
        }
    }
}

/// An index with the properties of `lemma_first_index` is `first_index`.
pub proof fn lemma_first_index_is(s: Seq<u8>, b: u8, p: int)
    requires
        0 <= p <= s.len(),
        p < s.len() ==> s[p] == b,
        forall|k: int| 0 <= k < p ==> s[k] != b,
    ensures
        first_index(s, b) == p,
{
    lemma_first_index(s, b);
    let q = first_index(s, b);
    if q < p {
        assert(s[q] != b);
    }
}

/// The pieces of `s` between its occurrences of `sep`, in order. There is
/// always at least one piece; pieces may be empty.
pub open spec fn split(s: Seq<u8>, sep: u8) -> Seq<Seq<u8>>
    decreases s.len(),
{
    let p = first_index(s, sep);
    if 0 <= p < s.len() {
        seq![s.subrange(0, p)] + split(s.subrange(p + 1, s.len() as int), sep)
    } else {
        seq![s]
    }
}

/// The pieces with one `sep` between each two neighbours.
pub open spec fn join(pieces: Seq<Seq<u8>>, sep: u8) -> Seq<u8>
    decreases pieces.len(),
{
    if pieces.len() == 0 {
        Seq::empty()
    } else if pieces.len() == 1 {
        pieces[0]
    } else {
        join(pieces.drop_last(), sep) + seq![sep] + pieces.last()
    }
}

/// Joining behind a first piece: the counterpart of the definition, which
/// peels off the last one.
pub proof fn lemma_join_front(first: Seq<u8>, rest: Seq<Seq<u8>>, sep: u8)
    requires
        rest.len() > 0,
    ensures
        join(seq![first] + rest, sep) == first + seq![sep] + join(rest, sep),
    decreases rest.len(),
{
    let all = seq![first] + rest;
    if rest.len() == 1 {
        assert(all.drop_last() =~= seq![first]);
        assert(join(all.drop_last(), sep) == first);
        assert(all.last() == rest[0]);
    } else {
        assert(all.drop_last() =~= seq![first] + rest.drop_last());
        lemma_join_front(first, rest.drop_last(), sep);
        assert(all.last() == rest.last());
        assert(join(all, sep) =~= first + seq![sep] + join(rest, sep));
    }
}

/// Splitting and joining on the same separator gives the bytes back.
pub proof fn lemma_join_split(s: Seq<u8>, sep: u8)
    ensures
        split(s, sep).len() >= 1,
        join(split(s, sep), sep) == s,
    decreases s.len(),
{
    lemma_first_index(s, sep);
    let p = first_index(s, sep);
    if p < s.len() {
        let rest = s.subrange(p + 1, s.len() as int);
        lemma_join_split(rest, sep);
        lemma_join_front(s.subrange(0, p), split(rest, sep), sep);
        assert(s.subrange(0, p) + seq![sep] + rest =~= s);
    }
}

/// Bytes without the separator are one piece.
pub proof fn lemma_split_one(s: Seq<u8>, sep: u8)
    requires
        forall|k: int| 0 <= k < s.len() ==> s[k] != sep,
    ensures
        split(s, sep) == seq![s],
{
    lemma_first_index_is(s, sep, s.len() as int);
}

/// Splitting two byte strings with a separator between them gives the
/// pieces of the first, then those of the second.
pub proof fn lemma_split_joined(a: Seq<u8>, b: Seq<u8>, sep: u8)
    ensures
        split(a + seq![sep] + b, sep) == split(a, sep) + split(b, sep),
    decreases a.len(),
{
    let all = a + seq![sep] + b;
    lemma_first_index(a, sep);
    let p = first_index(a, sep);
    if p < a.len() {
        assert forall|k: int| 0 <= k < p implies all[k] != sep by {
            assert(all[k] == a[k]);
        }
        assert(all[p] == a[p]);
        lemma_first_index_is(all, sep, p);
        let rest = a.subrange(p + 1, a.len() as int);
        assert(all.subrange(p + 1, all.len() as int) =~= rest + seq![sep] + b);
        assert(all.subrange(0, p) =~= a.subrange(0, p));
        lemma_split_joined(rest, b, sep);
        assert(split(all, sep) =~= split(a, sep) + split(b, sep));
    } else {
        assert forall|k: int| 0 <= k < a.len() implies all[k] != sep by {
            assert(all[k] == a[k]);
        }
        assert(all[a.len() as int] == sep);
        lemma_first_index_is(all, sep, a.len() as int);
        assert(all.subrange(0, a.len() as int) =~= a);
        assert(all.subrange(a.len() as int + 1, all.len() as int) =~= b);
        assert(split(all, sep) =~= split(a, sep) + split(b, sep));
    }
}

/// Pieces without the separator, one at least, come back when they are
/// joined and split again.
pub proof fn lemma_split_join(pieces: Seq<Seq<u8>>, sep: u8)
    requires
        pieces.len() >= 1,
        forall|i: int, k: int|
            0 <= i < pieces.len() && 0 <= k < pieces[i].len() ==> pieces[i][k] != sep,
    ensures
        split(join(pieces, sep), sep) == pieces,
    decreases pieces.len(),
{
    assert forall|k: int| 0 <= k < pieces.last().len() implies pieces.last()[k] != sep by {
        assert(pieces[pieces.len() - 1][k] != sep);
    }
    lemma_split_one(pieces.last(), sep);
    if pieces.len() == 1 {
        assert(seq![pieces[0]] =~= pieces);
    } else {
        let head = pieces.drop_last();
        assert forall|i: int, k: int|
            0 <= i < head.len() && 0 <= k < head[i].len() implies head[i][k] != sep by {
            assert(head[i] == pieces[i]);
        }
        lemma_split_join(head, sep);
        lemma_split_joined(join(head, sep), pieces.last(), sep);
        assert(head + seq![pieces.last()] =~= pieces);
    }
}

/// No piece of a split holds the separator.
pub proof fn lemma_split_pieces(s: Seq<u8>, sep: u8)
    ensures
        forall|i: int, k: int|
            0 <= i < split(s, sep).len() && 0 <= k < split(s, sep)[i].len() ==> split(
                s,
                sep,
            )[i][k] != sep,
    decreases s.len(),
{
    lemma_first_index(s, sep);
    let p = first_index(s, sep);
    if p < s.len() {
        let rest = s.subrange(p + 1, s.len() as int);
        lemma_split_pieces(rest, sep);
        assert forall|i: int, k: int|
            0 <= i < split(s, sep).len() && 0 <= k < split(s, sep)[i].len() implies split(
            s,
            sep,
        )[i][k] != sep by {
            if i > 0 {
                assert(split(s, sep)[i] == split(rest, sep)[i - 1]);
            }
        }
    }
}

/// The items of `s` in the order in which each occurs first.
pub open spec fn distinct<T>(s: Seq<T>) -> Seq<T>
    decreases s.len(),
{
    if s.len() == 0 {
        s
    } else {
        let before = distinct(s.drop_last());
        if before.contains(s.last()) {
            before
        } else {
            before.push(s.last())
        }
    }
}

/// A sequence with one item more holds what it held, and that item.
pub proof fn lemma_push_contains<T>(s: Seq<T>, last: T, x: T)
    ensures
        s.push(last).contains(x) <==> s.contains(x) || x == last,
{
    let more = s.push(last);
    if more.contains(x) {
        let i = choose|i: int| 0 <= i < more.len() && more[i] == x;
        if i < s.len() {
            assert(s[i] == x);
        }
    }
    if s.contains(x) {
        let i = choose|i: int| 0 <= i < s.len() && s[i] == x;
        assert(more[i] == x);
    }
    if x == last {
        assert(more[s.len() as int] == x);
    }
}

/// `distinct` holds nothing twice, and holds what the sequence holds.
pub proof fn lemma_distinct<T>(s: Seq<T>)
    ensures
        distinct(s).no_duplicates(),
        forall|x: T| distinct(s).contains(x) <==> s.contains(x),
    decreases s.len(),
{
    if s.len() > 0 {
        let head = s.drop_last();
        let before = distinct(head);
        lemma_distinct(head);
        assert(head.push(s.last()) =~= s);
        assert forall|x: T| distinct(s).contains(x) <==> s.contains(x) by {
            lemma_push_contains(head, s.last(), x);
            lemma_push_contains(before, s.last(), x);
        }
    }
}

/// The bytes of each of the byte strings.
pub open spec fn views(list: Seq<Vec<u8>>) -> Seq<Seq<u8>> {
    Seq::new(list.len(), |i: int| list[i]@)
}

/// The UTF-8 bytes of each of the strings.
pub open spec fn texts(items: Seq<String>) -> Seq<Seq<u8>> {
    Seq::new(items.len(), |i: int| vstd::utf8::encode_utf8(items[i]@))
}

/// Whether `s` begins with `prefix`.
pub open spec fn starts_with(s: Seq<u8>, prefix: Seq<u8>) -> bool {
    prefix.len() <= s.len() && s.subrange(0, prefix.len() as int) == prefix
}

/// Whether `s` ends with `suffix`.
pub open spec fn ends_with(s: Seq<u8>, suffix: Seq<u8>) -> bool {
    suffix.len() <= s.len() && s.subrange(s.len() - suffix.len(), s.len() as int) == suffix
}

/// Finds the first `b` in `s`.
pub fn find_byte(s: &[u8], b: u8) -> (p: usize)
    ensures
        p == first_index(s@, b),
        p <= s@.len(),
{
    let mut i: usize = 0;
    while i < s.len() && s[i] != b
        invariant
            i <= s@.len(),
            forall|k: int| 0 <= k < i ==> s@[k] != b,
        decreases s@.len() - i,
    {
        i += 1;
    }
    proof {
        lemma_first_index_is(s@, b, i as int);
    }
    i
}

/// Appends `src` to `dst`.
pub fn append(dst: &mut Vec<u8>, src: &[u8])
    ensures
        final(dst)@ == old(dst)@ + src@,
{
    let mut i: usize = 0;
    while i < src.len()
        invariant
            i <= src@.len(),
            dst@ == old(dst)@ + src@.subrange(0, i as int),
        decreases src@.len() - i,
    {
        dst.push(src[i]);
        i += 1;
        assert(dst@ =~= old(dst)@ + src@.subrange(0, i as int));
    }
    assert(src@.subrange(0, src@.len() as int) =~= src@);
}

/// Whether two byte strings are the same.
pub fn same_bytes(a: &[u8], b: &[u8]) -> (r: bool)
    ensures
        r == (a@ == b@),
{
    if a.len() != b.len() {
        return false;
    }
    let mut i: usize = 0;
    while i < a.len()
        invariant
            i <= a@.len(),
            a@.len() == b@.len(),
            forall|k: int| 0 <= k < i ==> a@[k] == b@[k],
        decreases a@.len() - i,
    {
        if a[i] != b[i] {
            return false;
        }
        i += 1;
    }
    assert(a@ =~= b@);
    true
}

/// Whether the list holds these bytes.
pub fn holds_bytes(list: &Vec<Vec<u8>>, item: &[u8]) -> (r: bool)
    ensures
        r == views(list@).contains(item@),
{
    let mut i: usize = 0;
    while i < list.len()
        invariant
            i <= list@.len(),
            forall|k: int| 0 <= k < i ==> views(list@)[k] != item@,
        decreases list@.len() - i,
    {
        if same_bytes(list[i].as_slice(), item) {
            assert(views(list@)[i as int] == item@);
            return true;
        }
        i += 1;
    }
    false
}

/// A copy of the bytes.
pub fn to_vec(bytes: &[u8]) -> (copy: Vec<u8>)
    ensures
        copy@ == bytes@,
{
    let mut copy: Vec<u8> = Vec::new();
    append(&mut copy, bytes);
    copy
}

/// The UTF-8 bytes of each string, each kept once, in the order in which
/// it occurs first.
pub fn distinct_texts(items: &Vec<String>) -> (list: Vec<Vec<u8>>)
    ensures
        views(list@) == distinct(texts(items@)),
{
    let mut list: Vec<Vec<u8>> = Vec::new();
    let mut n: usize = 0;
    assert(texts(items@).subrange(0, 0) =~= Seq::empty());
    assert(views(list@) =~= Seq::empty());
    while n < items.len()
        invariant
            n <= items@.len(),
            views(list@) == distinct(texts(items@).subrange(0, n as int)),
        decreases items@.len() - n,
    {
        let ghost before = texts(items@).subrange(0, n as int);
        let ghost after = texts(items@).subrange(0, n + 1);
        let ghost old_list = views(list@);
        let item = items[n].as_str().as_bytes();
        assert(after.drop_last() =~= before);
        assert(after.last() == item@);
        if !holds_bytes(&list, item) {
            list.push(to_vec(item));
            assert(views(list@) =~= old_list.push(item@));
        }
        n += 1;
    }
    assert(texts(items@).subrange(0, n as int) =~= texts(items@));
    list
}

/// Whether `s` begins with `prefix`.
pub fn has_prefix(s: &[u8], prefix: &[u8]) -> (r: bool)
    ensures
        r == starts_with(s@, prefix@),
{
    if prefix.len() > s.len() {
        return false;
    }
    let head = vstd::slice::slice_subrange(s, 0, prefix.len());
    same_bytes(head, prefix)
}

/// Whether `s` ends with `suffix`.
pub fn has_suffix(s: &[u8], suffix: &[u8]) -> (r: bool)
    ensures
        r == ends_with(s@, suffix@),
{
    if suffix.len() > s.len() {
        return false;
    }
    let tail = vstd::slice::slice_subrange(s, s.len() - suffix.len(), s.len());
    same_bytes(tail, suffix)
}

} // verus!
