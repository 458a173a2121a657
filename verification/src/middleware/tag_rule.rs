//! Dropping tags from a metric by a rule on single tags.

use crate::bytes::{append, join, COMMA};
use crate::types::{Metric, MetricTag};
use vstd::prelude::*;

verus! {

/// A rule that says of each tag whether it stays.
pub trait TagRule {
    /// Whether a tag with these bytes stays.
    spec fn keeps(&self, tag: Seq<u8>) -> bool;

    /// Decides on one tag.
    fn keep(&self, tag: &MetricTag<'_>) -> (kept: bool)
        requires
            tag.valid(),
        ensures
            kept == self.keeps(tag.raw@),
    ;
}

/// The rule as a predicate on the bytes of a tag.
pub open spec fn keeps_of<R: TagRule>(rule: &R) -> spec_fn(Seq<u8>) -> bool {
    |tag: Seq<u8>| rule.keeps(tag)
}

/// Filtering one tag more: it is appended to what stays, or it is not.
pub proof fn lemma_filter_push(done: Seq<Seq<u8>>, tag: Seq<u8>, keep: spec_fn(Seq<u8>) -> bool)
    ensures
        done.push(tag).filter(keep) == if keep(tag) {
            done.filter(keep).push(tag)
        } else {
            done.filter(keep)
        },
{
    reveal(Seq::filter);
    assert(done.push(tag).drop_last() =~= done);
}

/// Whether `keep` holds of every tag.
pub open spec fn keeps_all(tags: Seq<Seq<u8>>, keep: spec_fn(Seq<u8>) -> bool) -> bool {
    forall|i: int| 0 <= i < tags.len() ==> #[trigger] keep(tags[i])
}

/// `keep` holds of all tags and one more where it holds of all and of the one.
pub proof fn lemma_all_push(done: Seq<Seq<u8>>, tag: Seq<u8>, keep: spec_fn(Seq<u8>) -> bool)
    ensures
        keeps_all(done.push(tag), keep) == (keeps_all(done, keep) && keep(tag)),
{
    let more = done.push(tag);
    if keeps_all(more, keep) {
        assert forall|i: int| 0 <= i < done.len() implies #[trigger] keep(done[i]) by {
            assert(keep(more[i]));
        }
        assert(keep(more[done.len() as int]));
    }
    if keeps_all(done, keep) && keep(tag) {
        assert forall|i: int| 0 <= i < more.len() implies #[trigger] keep(more[i]) by {
            if i < done.len() {
                assert(keep(done[i]));
            }
        }
    }
}

/// Drops from the metric the tags that the rule does not keep.
pub fn retain_tags<R: TagRule>(metric: &mut Metric, rule: &R)
    requires
        old(metric).valid(),
    ensures
        final(metric)@ == old(metric)@.retain_tags(keeps_of(rule)),
        final(metric).valid(),
{
    let ghost keep = keeps_of(rule);
    let ghost list = metric@.tag_list();
    let ghost mut done: Seq<Seq<u8>> = Seq::empty();
    let mut joined: Vec<u8> = Vec::new();
    let mut any = false;
    let mut dropped = false;
    let mut iter = metric.tags_iter();
    proof {
        reveal(Seq::filter);
        assert(done + iter.pending() =~= list);
    }
    loop
        invariant
            keep == keeps_of(rule),
            list == done + iter.pending(),
            joined@ == join(done.filter(keep), COMMA),
            any == (done.filter(keep).len() > 0),
            dropped == !keeps_all(done, keep),
        ensures
            list == done,
            joined@ == join(done.filter(keep), COMMA),
            dropped == !keeps_all(done, keep),
        decreases iter.pending().len(),
    {
        let ghost rest = iter.pending();
        match iter.next() {
            Some(tag) => {
                let ghost bytes = rest[0];
                let ghost kept = done.filter(keep);
                proof {
                    lemma_filter_push(done, bytes, keep);
                    lemma_all_push(done, bytes, keep);
                    assert(done.push(bytes) + rest.drop_first() =~= done + rest);
                }
                if rule.keep(&tag) {
                    if any {
                        joined.push(COMMA);
                    }
                    append(&mut joined, tag.raw);
                    any = true;
                    proof {
                        assert(kept.push(bytes).drop_last() =~= kept);
                        if kept.len() > 0 {
                            assert(joined@ =~= join(kept, COMMA) + seq![COMMA] + bytes);
                        } else {
                            assert(joined@ =~= bytes);
                        }
                    }
                } else {
                    dropped = true;
                }
                proof {
                    done = done.push(bytes);
                }
            },
            None => {
                proof {
                    assert(done + rest =~= done);
                }
                break ;
            },
        }
    }
    if dropped {
        metric.set_tags(joined.as_slice());
    }
}

} // verus!
