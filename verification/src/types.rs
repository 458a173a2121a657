//! The metric value object: one line of the DogStatsD wire format, kept as the
//! bytes that came over the wire, with lazy accessors and an editor for the
//! tag segment.
//!
//! ```text
//! <NAME>:<VALUE>|<TYPE>[|@<SAMPLE_RATE>][|#<TAG1>[,<TAG2>...]][|<other extensions>]
//! ```

use crate::bytes::{
    append, find_byte, first_index, join, lemma_first_index, lemma_join_split, split, COLON,
    COMMA, HASH, PIPE,
};
use vstd::prelude::*;
use vstd::slice::slice_subrange;

verus! {

/// Index of the `|` of the first `|#` in `s`, or `s.len()` where `s` holds none.
pub open spec fn first_marker(s: Seq<u8>) -> int
    decreases s.len(),
{
    if s.len() < 2 {
        s.len() as int
    } else if s[0] == PIPE && s[1] == HASH {
        0
    } else {
        1 + first_marker(s.drop_first())
    }
}

/// Whether a `|#` stands at index `i` of `s`.
pub open spec fn marker_at(s: Seq<u8>, i: int) -> bool {
    0 <= i && i + 1 < s.len() && s[i] == PIPE && s[i + 1] == HASH
}

/// `first_marker` is in range, points at a `|#` unless it is the length, and
/// no `|#` stands before it.
pub proof fn lemma_first_marker(s: Seq<u8>)
    ensures
        0 <= first_marker(s) <= s.len(),
        first_marker(s) < s.len() ==> marker_at(s, first_marker(s)),
        forall|k: int| 0 <= k < first_marker(s) ==> !marker_at(s, k),
    decreases s.len(),
{
    if s.len() >= 2 && !(s[0] == PIPE && s[1] == HASH) {
        let t = s.drop_first();
        lemma_first_marker(t);
        assert forall|k: int| 0 <= k < first_marker(s) implies !marker_at(s, k) by {
            if k > 0 {
                assert(marker_at(s, k) == marker_at(t, k - 1));
            }
        }
        if first_marker(s) < s.len() {
            assert(marker_at(t, first_marker(t)));
        }
    }
}

/// An index with the properties of `lemma_first_marker` is `first_marker`.
pub proof fn lemma_first_marker_is(s: Seq<u8>, p: int)
    requires
        0 <= p <= s.len(),
        p < s.len() ==> marker_at(s, p),
        forall|k: int| 0 <= k < p ==> !marker_at(s, k),
    ensures
        first_marker(s) == p,
{
    lemma_first_marker(s);
    let q = first_marker(s);
    if q < p {
        assert(!marker_at(s, q));
    }
}

/// The name of a tag: what stands before its first `:`, where it has one.
pub open spec fn tag_name(tag: Seq<u8>) -> Option<Seq<u8>> {
    let p = first_index(tag, COLON);
    if p < tag.len() {
        Some(tag.subrange(0, p))
    } else {
        None
    }
}

/// The value of a tag: what stands behind its first `:`, where it has one.
pub open spec fn tag_value(tag: Seq<u8>) -> Option<Seq<u8>> {
    let p = first_index(tag, COLON);
    if p < tag.len() {
        Some(tag.subrange(p + 1, tag.len() as int))
    } else {
        None
    }
}

/// A metric as a mathematical value: its bytes and the bounds of its tag list.
pub struct MetricView {
    /// The line, without a trailing line feed.
    pub raw: Seq<u8>,
    /// Start and end of the tag list: the bytes behind `|#`, up to the next
    /// `|` or the end of the line.
    pub tags_pos: Option<(int, int)>,
}

impl MetricView {
    /// The bounds lie in the line, a `|#` stands right before the start, and
    /// the end is the end of the line or a `|`.
    pub open spec fn valid(self) -> bool {
        match self.tags_pos {
            None => true,
            Some((i, j)) => {
                &&& 2 <= i <= j <= self.raw.len()
                &&& self.raw[i - 2] == PIPE
                &&& self.raw[i - 1] == HASH
                &&& j < self.raw.len() ==> self.raw[j] == PIPE
            },
        }
    }

    /// The metric that a line is read as: the tag list follows the first
    /// `|#` and runs to the next `|` or to the end.
    pub open spec fn parse(raw: Seq<u8>) -> MetricView {
        let m = first_marker(raw);
        if m < raw.len() {
            let i = m + 2;
            let j = i + first_index(raw.subrange(i, raw.len() as int), PIPE);
            MetricView { raw, tags_pos: Some((i, j)) }
        } else {
            MetricView { raw, tags_pos: None }
        }
    }

    /// The bytes before the first `:`; the whole line where it has none.
    pub open spec fn name(self) -> Seq<u8> {
        self.raw.subrange(0, first_index(self.raw, COLON))
    }

    /// Where the value starts and ends: behind the first `:`, up to the next
    /// `|` or the end. `None` where the line has no `:`.
    pub open spec fn value_pos(self) -> Option<(int, int)> {
        let c = first_index(self.raw, COLON);
        if c < self.raw.len() {
            let start = c + 1;
            Some((start, start + first_index(self.raw.subrange(start, self.raw.len() as int), PIPE)))
        } else {
            None
        }
    }

    /// The bytes of the value.
    pub open spec fn value(self) -> Option<Seq<u8>> {
        match self.value_pos() {
            Some((i, j)) => Some(self.raw.subrange(i, j)),
            None => None,
        }
    }

    /// The bytes of the type: behind the first `|`, up to the next `|` or the
    /// end. `None` where the line has no `|`.
    pub open spec fn ty(self) -> Option<Seq<u8>> {
        let p = first_index(self.raw, PIPE);
        if p < self.raw.len() {
            let start = p + 1;
            let rest = self.raw.subrange(start, self.raw.len() as int);
            Some(rest.subrange(0, first_index(rest, PIPE)))
        } else {
            None
        }
    }

    /// The bytes of the tag list.
    pub open spec fn tags(self) -> Option<Seq<u8>> {
        match self.tags_pos {
            Some((i, j)) => Some(self.raw.subrange(i, j)),
            None => None,
        }
    }

    /// The tags, one per comma-separated piece of the tag list; none where
    /// there is no tag list.
    pub open spec fn tag_list(self) -> Seq<Seq<u8>> {
        match self.tags() {
            Some(t) => split(t, COMMA),
            None => Seq::empty(),
        }
    }

    /// The metric with only those of its tags that `keep` holds of. Where it
    /// holds of all of them the metric is untouched; else the tag list is
    /// rebuilt from the tags that stay.
    pub open spec fn retain_tags(self, keep: spec_fn(Seq<u8>) -> bool) -> MetricView {
        let list = self.tag_list();
        if forall|i: int| 0 <= i < list.len() ==> #[trigger] keep(list[i]) {
            self
        } else {
            self.set_tags(join(list.filter(keep), COMMA))
        }
    }

    /// The metric after its tag list is set to `tags`: an empty list takes
    /// the segment out, `|#` included; a list replaces the one that is there,
    /// or is appended behind a new `|#`.
    pub open spec fn set_tags(self, tags: Seq<u8>) -> MetricView {
        let len = self.raw.len() as int;
        if tags.len() == 0 {
            match self.tags_pos {
                Some((i, j)) => MetricView {
                    raw: self.raw.subrange(0, i - 2) + self.raw.subrange(j, len),
                    tags_pos: None,
                },
                None => self,
            }
        } else {
            match self.tags_pos {
                Some((i, j)) => MetricView {
                    raw: self.raw.subrange(0, i) + tags + self.raw.subrange(j, len),
                    tags_pos: Some((i, i + tags.len())),
                },
                None => MetricView {
                    raw: self.raw + seq![PIPE, HASH] + tags,
                    tags_pos: Some((len + 2, len + 2 + tags.len())),
                },
            }
        }
    }
}

/// A line as it was read is a valid metric: its tag list starts behind the
/// first `|#` of the line, holds no `|`, and ends at a `|` or at the end.
pub proof fn lemma_parse(raw: Seq<u8>)
    ensures
        MetricView::parse(raw).valid(),
        MetricView::parse(raw).raw == raw,
        match MetricView::parse(raw).tags_pos {
            None => forall|k: int| !marker_at(raw, k),
            Some((i, j)) => {
                &&& marker_at(raw, i - 2)
                &&& forall|k: int| 0 <= k < i - 2 ==> !marker_at(raw, k)
                &&& forall|k: int| i <= k < j ==> raw[k] != PIPE
            },
        },
{
    lemma_first_marker(raw);
    let m = first_marker(raw);
    if m < raw.len() {
        let i = m + 2;
        let rest = raw.subrange(i, raw.len() as int);
        lemma_first_index(rest, PIPE);
        let j = i + first_index(rest, PIPE);
        assert forall|k: int| i <= k < j implies raw[k] != PIPE by {
            assert(raw[k] == rest[k - i]);
        }
        if j < raw.len() {
            assert(raw[j] == rest[j - i]);
        }
    }
}

/// After `set_tags` the tag list is what was set, or absent where that was
/// empty, and the metric is valid again.
pub proof fn lemma_set_tags_then_tags(m: MetricView, tags: Seq<u8>)
    requires
        m.valid(),
    ensures
        m.set_tags(tags).valid(),
        tags.len() > 0 ==> m.set_tags(tags).tags() == Some(tags),
        tags.len() == 0 ==> m.set_tags(tags).tags() == None::<Seq<u8>>,
{
    let n = m.set_tags(tags);
    if tags.len() > 0 {
        match m.tags_pos {
            Some((i, j)) => {
                assert(n.raw.subrange(i, i + tags.len()) =~= tags);
            },
            None => {
                let len = m.raw.len() as int;
                assert(n.raw.subrange(len + 2, len + 2 + tags.len()) =~= tags);
            },
        }
    }
}

/// Where a metric has a tag list, `set_tags` leaves every byte before and
/// behind the tag segment as it was: a new list moves what follows it, an
/// empty one also takes the `|#` away.
pub proof fn lemma_set_tags_keeps_rest(m: MetricView, tags: Seq<u8>)
    requires
        m.valid(),
        m.tags_pos is Some,
    ensures
        ({
            let (i, j) = m.tags_pos->0;
            let n = m.set_tags(tags);
            let head = if tags.len() == 0 {
                i - 2
            } else {
                i
            };
            &&& n.raw.len() == head + tags.len() + (m.raw.len() - j)
            &&& n.raw.subrange(0, head) == m.raw.subrange(0, head)
            &&& n.raw.subrange(head + tags.len(), n.raw.len() as int) == m.raw.subrange(
                j,
                m.raw.len() as int,
            )
        }),
{
    let (i, j) = m.tags_pos->0;
    let n = m.set_tags(tags);
    let head = if tags.len() == 0 {
        i - 2
    } else {
        i
    };
    assert(n.raw.subrange(0, head) =~= m.raw.subrange(0, head));
    assert(n.raw.subrange(head + tags.len(), n.raw.len() as int) =~= m.raw.subrange(
        j,
        m.raw.len() as int,
    ));
}

/// The tags of a metric, joined with `,`, are its tag list.
pub proof fn lemma_tag_list_joins_to_tags(m: MetricView)
    requires
        m.tags() is Some,
    ensures
        m.tag_list().len() >= 1,
        join(m.tag_list(), COMMA) == m.tags()->0,
{
    lemma_join_split(m.tags()->0, COMMA);
}

/// An empty tag list is one tag, which is empty and has neither name nor
/// value.
pub proof fn lemma_empty_tag_list(m: MetricView)
    requires
        m.tags() == Some(Seq::<u8>::empty()),
    ensures
        m.tag_list() == seq![Seq::<u8>::empty()],
        tag_name(m.tag_list()[0]) is None,
        tag_value(m.tag_list()[0]) is None,
{
}

/// One DogStatsD metric, stored as the line of bytes that went over the wire.
///
/// Nothing is parsed but the place of the tag list, and no edit touches a byte
/// outside the tag segment, so that a metric which no stage changes leaves as
/// it came.
#[derive(Debug, PartialEq)]
pub struct Metric {
    pub raw: Vec<u8>,
    tags_pos: Option<(usize, usize)>,
}

impl View for Metric {
    type V = MetricView;

    closed spec fn view(&self) -> MetricView {
        MetricView {
            raw: self.raw@,
            tags_pos: match self.tags_pos {
                Some((i, j)) => Some((i as int, j as int)),
                None => None,
            },
        }
    }
}

impl Clone for Metric {
    fn clone(&self) -> (copy: Self)
        ensures
            copy@ == self@,
    {
        let mut raw: Vec<u8> = Vec::new();
        append(&mut raw, self.raw.as_slice());
        Metric { raw, tags_pos: self.tags_pos }
    }
}

impl Metric {
    /// The recorded bounds fit the bytes.
    pub open spec fn valid(&self) -> bool {
        self@.valid()
    }

    /// Reads a line as a metric.
    pub fn new(raw: Vec<u8>) -> (metric: Self)
        ensures
            metric@ == MetricView::parse(raw@),
            metric.valid(),
    {
        proof {
            lemma_parse(raw@);
        }
        let len = raw.len();
        let mut m: usize = 0;
        while m < len && !(m < len - 1 && raw[m] == PIPE && raw[m + 1] == HASH)
            invariant
                len == raw@.len(),
                m <= len,
                forall|k: int| 0 <= k < m ==> !marker_at(raw@, k),
            decreases len - m,
        {
            m += 1;
        }
        if m < len {
            proof {
                lemma_first_marker_is(raw@, m as int);
            }
            let start = m + 2;
            let rest = slice_subrange(raw.as_slice(), start, len);
            let end = start + find_byte(rest, PIPE);
            Metric { raw, tags_pos: Some((start, end)) }
        } else {
            proof {
                lemma_first_marker_is(raw@, len as int);
            }
            Metric { raw, tags_pos: None }
        }
    }

    /// The whole line.
    pub fn bytes(&self) -> (bytes: &[u8])
        ensures
            bytes@ == self@.raw,
    {
        self.raw.as_slice()
    }

    /// The bytes before the first `:`.
    pub fn name(&self) -> (name: Option<&[u8]>)
        ensures
            name is Some,
            name->0@ == self@.name(),
    {
        let raw = self.raw.as_slice();
        let end = find_byte(raw, COLON);
        Some(slice_subrange(raw, 0, end))
    }

    /// The bytes between the first `:` and the `|` that follows it.
    pub fn value(&self) -> (value: Option<&[u8]>)
        ensures
            value is Some == self@.value() is Some,
            value is Some ==> value->0@ == self@.value()->0,
    {
        let raw = self.raw.as_slice();
        let colon = find_byte(raw, COLON);
        if colon < raw.len() {
            let start = colon + 1;
            let rest = slice_subrange(raw, start, raw.len());
            let end = start + find_byte(rest, PIPE);
            Some(slice_subrange(raw, start, end))
        } else {
            None
        }
    }

    /// Where the value starts and ends.
    pub fn value_pos(&self) -> (pos: Option<(usize, usize)>)
        ensures
            pos is Some == self@.value_pos() is Some,
            pos matches Some((start, end)) ==> self@.value_pos() == Some((start as int, end as int))
                && start <= end <= self@.raw.len(),
    {
        let raw = self.raw.as_slice();
        let colon = find_byte(raw, COLON);
        if colon < raw.len() {
            let start = colon + 1;
            let rest = slice_subrange(raw, start, raw.len());
            let end = start + find_byte(rest, PIPE);
            Some((start, end))
        } else {
            None
        }
    }

    /// The bytes between the first `|` and the next.
    pub fn ty(&self) -> (ty: Option<&[u8]>)
        ensures
            ty is Some == self@.ty() is Some,
            ty is Some ==> ty->0@ == self@.ty()->0,
    {
        let raw = self.raw.as_slice();
        let pipe = find_byte(raw, PIPE);
        if pipe < raw.len() {
            let rest = slice_subrange(raw, pipe + 1, raw.len());
            let end = find_byte(rest, PIPE);
            Some(slice_subrange(rest, 0, end))
        } else {
            None
        }
    }

    /// The bytes of the tag list.
    pub fn tags(&self) -> (tags: Option<&[u8]>)
        requires
            self.valid(),
        ensures
            tags is Some == self@.tags() is Some,
            tags is Some ==> tags->0@ == self@.tags()->0,
    {
        match self.tags_pos {
            Some((i, j)) => Some(slice_subrange(self.raw.as_slice(), i, j)),
            None => None,
        }
    }

    /// The tags, one after the other.
    pub fn tags_iter(&self) -> (iter: MetricTagIterator<'_>)
        requires
            self.valid(),
        ensures
            iter.pending() == self@.tag_list(),
    {
        MetricTagIterator { remaining_tags: self.tags() }
    }

    /// Sets the tag list.
    pub fn set_tags(&mut self, tags: &[u8])
        requires
            old(self).valid(),
        ensures
            final(self)@ == old(self)@.set_tags(tags@),
            final(self).valid(),
    {
        proof {
            lemma_set_tags_then_tags(self@, tags@);
        }
        let len = self.raw.len();
        if tags.len() == 0 {
            if let Some((i, j)) = self.tags_pos {
                let mut raw: Vec<u8> = Vec::new();
                append(&mut raw, slice_subrange(self.raw.as_slice(), 0, i - 2));
                append(&mut raw, slice_subrange(self.raw.as_slice(), j, len));
                self.raw = raw;
                self.tags_pos = None;
            }
        } else {
            match self.tags_pos {
                Some((i, j)) => {
                    let mut raw: Vec<u8> = Vec::new();
                    append(&mut raw, slice_subrange(self.raw.as_slice(), 0, i));
                    append(&mut raw, tags);
                    append(&mut raw, slice_subrange(self.raw.as_slice(), j, len));
                    let end = raw.len() - (len - j);
                    self.raw = raw;
                    self.tags_pos = Some((i, end));
                },
                None => {
                    self.raw.push(PIPE);
                    self.raw.push(HASH);
                    let start = self.raw.len();
                    append(&mut self.raw, tags);
                    let end = self.raw.len();
                    self.tags_pos = Some((start, end));
                    assert(self.raw@ =~= old(self).raw@ + seq![PIPE, HASH] + tags@);
                },
            }
        }
    }

    /// Sets the tag list to the given tags, with a `,` between each two.
    pub fn set_tags_from_iter(&mut self, tags: &[MetricTag<'_>])
        requires
            old(self).valid(),
        ensures
            final(self)@ == old(self)@.set_tags(join(tag_bytes(tags@), COMMA)),
            final(self).valid(),
    {
        let joined = join_tags(tags);
        self.set_tags(joined.as_slice());
    }
}

/// The bytes of each of the tags.
pub open spec fn tag_bytes(tags: Seq<MetricTag<'_>>) -> Seq<Seq<u8>> {
    Seq::new(tags.len(), |i: int| tags[i].raw@)
}

/// The bytes of the tags with a `,` between each two.
pub fn join_tags(tags: &[MetricTag<'_>]) -> (joined: Vec<u8>)
    ensures
        joined@ == join(tag_bytes(tags@), COMMA),
{
    let mut joined: Vec<u8> = Vec::new();
    let mut n: usize = 0;
    while n < tags.len()
        invariant
            n <= tags@.len(),
            joined@ == join(tag_bytes(tags@).subrange(0, n as int), COMMA),
        decreases tags@.len() - n,
    {
        let ghost before = tag_bytes(tags@).subrange(0, n as int);
        let ghost after = tag_bytes(tags@).subrange(0, n + 1);
        if n > 0 {
            joined.push(COMMA);
        }
        append(&mut joined, tags[n].raw);
        proof {
            assert(after.drop_last() =~= before);
            assert(after.last() == tags@[n as int].raw@);
            if n > 0 {
                assert(joined@ =~= join(before, COMMA) + seq![COMMA] + after.last());
            } else {
                assert(joined@ =~= after.last());
            }
        }
        n += 1;
    }
    assert(tag_bytes(tags@).subrange(0, n as int) =~= tag_bytes(tags@));
    joined
}

/// One tag of a metric: the bytes of one comma-separated piece of the tag
/// list, and where its first `:` stands.
#[derive(Debug, PartialEq)]
pub struct MetricTag<'a> {
    pub raw: &'a [u8],
    pub name_value_sep_pos: Option<usize>,
}

impl<'a> MetricTag<'a> {
    /// The separator recorded is the first `:` of the bytes.
    pub open spec fn valid(&self) -> bool {
        match self.name_value_sep_pos {
            Some(p) => p < self.raw@.len() && p == first_index(self.raw@, COLON),
            None => first_index(self.raw@, COLON) == self.raw@.len(),
        }
    }

    /// Reads the bytes as a tag.
    pub fn new(bytes: &'a [u8]) -> (tag: MetricTag<'a>)
        ensures
            tag.raw@ == bytes@,
            tag.valid(),
    {
        let p = find_byte(bytes, COLON);
        MetricTag { raw: bytes, name_value_sep_pos: if p < bytes.len() { Some(p) } else { None } }
    }

    /// What stands before the first `:`.
    pub fn name(&self) -> (name: Option<&'a [u8]>)
        requires
            self.valid(),
        ensures
            name is Some == tag_name(self.raw@) is Some,
            name is Some ==> name->0@ == tag_name(self.raw@)->0,
    {
        match self.name_value_sep_pos {
            Some(p) => Some(slice_subrange(self.raw, 0, p)),
            None => None,
        }
    }

    /// What stands behind the first `:`.
    pub fn value(&self) -> (value: Option<&'a [u8]>)
        requires
            self.valid(),
        ensures
            value is Some == tag_value(self.raw@) is Some,
            value is Some ==> value->0@ == tag_value(self.raw@)->0,
    {
        let len = self.raw.len();
        match self.name_value_sep_pos {
            Some(p) => Some(slice_subrange(self.raw, p + 1, len)),
            None => None,
        }
    }
}

/// Walks over the tags of a tag list.
pub struct MetricTagIterator<'a> {
    pub remaining_tags: Option<&'a [u8]>,
}

impl<'a> MetricTagIterator<'a> {
    /// The tags that are still to come.
    pub open spec fn pending(&self) -> Seq<Seq<u8>> {
        match self.remaining_tags {
            Some(rest) => split(rest@, COMMA),
            None => Seq::empty(),
        }
    }

    /// The next tag, if one is left.
    pub fn next(&mut self) -> (tag: Option<MetricTag<'a>>)
        ensures
            tag is None ==> old(self).pending().len() == 0 && final(self).pending().len() == 0,
            tag is Some ==> {
                &&& old(self).pending().len() > 0
                &&& tag->0.raw@ == old(self).pending()[0]
                &&& tag->0.valid()
                &&& final(self).pending() == old(self).pending().drop_first()
            },
    {
        match self.remaining_tags {
            None => None,
            Some(rest) => {
                let p = find_byte(rest, COMMA);
                if p < rest.len() {
                    let tag = MetricTag::new(slice_subrange(rest, 0, p));
                    let tail = slice_subrange(rest, p + 1, rest.len());
                    self.remaining_tags = Some(tail);
                    assert(split(rest@, COMMA).drop_first() =~= split(tail@, COMMA));
                    Some(tag)
                } else {
                    let tag = MetricTag::new(rest);
                    self.remaining_tags = None;
                    assert(split(rest@, COMMA).drop_first() =~= Seq::<Seq<u8>>::empty());
                    Some(tag)
                }
            },
        }
    }

    /// All the tags that are left.
    pub fn collect(self) -> (tags: Vec<MetricTag<'a>>)
        ensures
            tag_bytes(tags@) == self.pending(),
            forall|i: int| 0 <= i < tags@.len() ==> tags@[i].valid(),
    {
        let mut iter = self;
        let mut tags: Vec<MetricTag<'a>> = Vec::new();
        loop
            invariant
                self.pending() == tag_bytes(tags@) + iter.pending(),
                forall|i: int| 0 <= i < tags@.len() ==> tags@[i].valid(),
            ensures
                tag_bytes(tags@) == self.pending(),
            decreases iter.pending().len(),
        {
            let ghost before = tag_bytes(tags@);
            let ghost rest = iter.pending();
            match iter.next() {
                Some(tag) => {
                    tags.push(tag);
                    assert(tag_bytes(tags@) =~= before.push(rest[0]));
                    assert(before.push(rest[0]) + rest.drop_first() =~= before + rest);
                },
                None => {
                    assert(before + rest =~= before);
                    break;
                },
            }
        }
        tags
    }
}

} // verus!
