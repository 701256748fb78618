//! Splicing replacement texts into a document at located spans.

use crate::spans::{spans_fit, spans_ordered};
use crate::text::{lemma_encode_concat, slice};
use std::borrow::Cow;
use std::ops::Range;
use vstd::prelude::*;
use vstd::string::*;
use vstd::utf8::*;

verus! {

/// The encodings of the replacement texts, span by span.
pub open spec fn replacement_bytes(decisions: Seq<Option<String>>) -> Seq<Option<Seq<u8>>> {
    Seq::new(
        decisions.len(),
        |i: int|
            match decisions[i] {
                Some(text) => Some(encode_utf8(text@)),
                None => None,
            },
    )
}

/// The document that results from replacing, for each span with a
/// replacement, the bytes of the span by the replacement, and keeping every
/// other byte where it is.
///
/// The last replacement splits the document in three: what precedes its span,
/// where the earlier replacements apply, the new text, and what follows the
/// span, which is kept.
pub open spec fn spliced(
    content: Seq<u8>,
    spans: Seq<Range<usize>>,
    replacements: Seq<Option<Seq<u8>>>,
) -> Seq<u8>
    decreases spans.len(),
{
    if spans.len() == 0 || replacements.len() != spans.len() {
        content
    } else {
        match replacements.last() {
            None => spliced(content, spans.drop_last(), replacements.drop_last()),
            Some(new) => spliced(
                content.subrange(0, spans.last().start as int),
                spans.drop_last(),
                replacements.drop_last(),
            ) + new + content.subrange(spans.last().end as int, content.len() as int),
        }
    }
}

/// No span is given a replacement.
pub open spec fn all_kept<T>(decisions: Seq<Option<T>>) -> bool {
    forall|i: int| 0 <= i < decisions.len() ==> (#[trigger] decisions[i]) is None
}

/// No span is given a replacement exactly where none is given an encoded
/// one.
pub proof fn lemma_all_kept_encoded(decisions: Seq<Option<String>>)
    ensures
        all_kept(decisions) == all_kept(replacement_bytes(decisions)),
{
    let news = replacement_bytes(decisions);
    if all_kept(decisions) {
        assert forall|k: int| 0 <= k < news.len() implies (#[trigger] news[k]) is None by {
            assert(decisions[k] is None);
        }
    }
    if all_kept(news) {
        assert forall|k: int| 0 <= k < decisions.len() implies (#[trigger] decisions[k]) is None by {
            assert(news[k] is None);
        }
    }
}

/// Splicing touches nothing behind the last span: the document can be cut
/// anywhere after it, spliced, and the rest put back.
pub proof fn lemma_spliced_tail(
    content: Seq<u8>,
    spans: Seq<Range<usize>>,
    replacements: Seq<Option<Seq<u8>>>,
    cut: int,
)
    requires
        replacements.len() == spans.len(),
        0 <= cut <= content.len(),
        forall|i: int|
            0 <= i < spans.len() ==> (#[trigger] spans[i]).start <= spans[i].end <= cut,
    ensures
        spliced(content, spans, replacements) == spliced(
            content.subrange(0, cut),
            spans,
            replacements,
        ) + content.subrange(cut, content.len() as int),
    decreases spans.len(),
{
    let head = content.subrange(0, cut);
    let tail = content.subrange(cut, content.len() as int);
    if spans.len() == 0 {
        assert(content =~= head + tail);
    } else {
        let last = spans.last();
        match replacements.last() {
            None => {
                lemma_spliced_tail(content, spans.drop_last(), replacements.drop_last(), cut);
            },
            Some(new) => {
                assert(head.subrange(0, last.start as int) =~= content.subrange(
                    0,
                    last.start as int,
                ));
                assert(head.subrange(last.end as int, head.len() as int) + tail
                    =~= content.subrange(last.end as int, content.len() as int));
                let before = spliced(
                    content.subrange(0, last.start as int),
                    spans.drop_last(),
                    replacements.drop_last(),
                );
                assert(before + new + content.subrange(last.end as int, content.len() as int)
                    =~= before + new + head.subrange(last.end as int, head.len() as int) + tail);
            },
        }
    }
}

/// Splicing touches nothing before the first span: up to where the first
/// span starts, the document stays as it is.
pub proof fn lemma_spliced_head(
    content: Seq<u8>,
    spans: Seq<Range<usize>>,
    replacements: Seq<Option<Seq<u8>>>,
    cut: int,
)
    requires
        replacements.len() == spans.len(),
        0 <= cut <= content.len(),
        spans_ordered(spans),
        forall|i: int|
            0 <= i < spans.len() ==> cut <= (#[trigger] spans[i]).start <= spans[i].end
                <= content.len(),
    ensures
        spliced(content, spans, replacements).len() >= cut,
        spliced(content, spans, replacements).take(cut) == content.take(cut),
    decreases spans.len(),
{
    if spans.len() > 0 {
        let last = spans.last();
        match replacements.last() {
            None => {
                assert forall|i: int, j: int| 0 <= i < j < spans.drop_last().len() implies (
                #[trigger] spans.drop_last()[i]).end <= (#[trigger] spans.drop_last()[j]).start by {
                    assert(spans[i].end <= spans[j].start);
                }
                assert forall|i: int| 0 <= i < spans.drop_last().len() implies cut <= (
                #[trigger] spans.drop_last()[i]).start <= spans.drop_last()[i].end
                    <= content.len() by {
                    assert(spans.drop_last()[i] == spans[i]);
                }
                lemma_spliced_head(content, spans.drop_last(), replacements.drop_last(), cut);
            },
            Some(new) => {
                let front = content.subrange(0, last.start as int);
                assert forall|i: int| 0 <= i < spans.drop_last().len() implies cut <= (
                #[trigger] spans.drop_last()[i]).start <= spans.drop_last()[i].end
                    <= front.len() by {
                    assert(spans.drop_last()[i] == spans[i]);
                    assert(spans[i].end <= spans[spans.len() - 1].start);
                }
                assert forall|i: int, j: int| 0 <= i < j < spans.drop_last().len() implies (
                #[trigger] spans.drop_last()[i]).end <= (#[trigger] spans.drop_last()[j]).start by {
                    assert(spans[i].end <= spans[j].start);
                }
                lemma_spliced_head(front, spans.drop_last(), replacements.drop_last(), cut);
                let before = spliced(front, spans.drop_last(), replacements.drop_last());
                let rest = content.subrange(last.end as int, content.len() as int);
                assert((before + new + rest).take(cut) =~= before.take(cut));
                assert(front.take(cut) =~= content.take(cut));
            },
        }
    }
}

/// A document in which no span is given a replacement stays as it is.
pub proof fn lemma_spliced_all_kept(
    content: Seq<u8>,
    spans: Seq<Range<usize>>,
    replacements: Seq<Option<Seq<u8>>>,
)
    requires
        all_kept(replacements),
    ensures
        spliced(content, spans, replacements) == content,
    decreases spans.len(),
{
    if spans.len() != 0 && replacements.len() == spans.len() {
        assert(replacements.last() is None);
        lemma_spliced_all_kept(content, spans.drop_last(), replacements.drop_last());
    }
}

/// Replaces in `content` each span for which `decisions` holds a text by that
/// text, in one pass from left to right. Where no span is given a text the
/// document itself is handed back, borrowed; otherwise a new text is built.
pub fn apply_replacements<'a>(
    content: &'a str,
    spans: &Vec<Range<usize>>,
    decisions: &Vec<Option<String>>,
) -> (r: Cow<'a, str>)
    requires
        spans.len() == decisions.len(),
        spans_fit(content.spec_bytes(), spans@),
        spans_ordered(spans@),
    ensures
        encode_utf8(r@) == spliced(content.spec_bytes(), spans@, replacement_bytes(decisions@)),
        r matches Cow::Borrowed(same) ==> same@ == content@,
        (r is Borrowed) == all_kept(decisions@),
{
    let ghost bytes = content.spec_bytes();
    let ghost news = replacement_bytes(decisions@);
    let len = content.as_bytes().len();
    let mut out = String::new();
    let mut cursor: usize = 0;
    let mut changed = false;
    let mut i: usize = 0;
    proof {
        encode_utf8_valid_utf8(content@);
        is_char_boundary_start_end_of_seq(bytes);
        assert(bytes.subrange(0, bytes.len() as int) =~= bytes);
        assert(encode_utf8(out@) + bytes =~= bytes);
    }
    while i < spans.len()
        invariant
            bytes == content.spec_bytes(),
            news == replacement_bytes(decisions@),
            valid_utf8(bytes),
            len == bytes.len(),
            spans.len() == decisions.len(),
            spans_fit(bytes, spans@),
            spans_ordered(spans@),
            0 <= i <= spans.len(),
            cursor <= len,
            is_char_boundary(bytes, cursor as int),
            forall|j: int| i <= j < spans.len() ==> cursor <= (#[trigger] spans[j]).start,
            encode_utf8(out@) + bytes.subrange(cursor as int, len as int) == spliced(
                bytes,
                spans@.take(i as int),
                news.take(i as int),
            ),
            changed == !all_kept(decisions@.take(i as int)),
            !changed ==> out@.len() == 0 && cursor == 0,
        decreases spans.len() - i,
    {
        let ghost done = spans@.take(i as int);
        let ghost next = spans@.take(i + 1);
        proof {
            assert(next.drop_last() =~= done);
            assert(news.take(i + 1).drop_last() =~= news.take(i as int));
            assert(next.last() == spans[i as int]);
            assert(news.take(i + 1).last() == news[i as int]);
            assert(decisions@.take(i + 1).drop_last() =~= decisions@.take(i as int));
        }
        match &decisions[i] {
            Some(new) => {
                let start = spans[i].start;
                let end = spans[i].end;
                let ghost text = out@;
                let ghost before = encode_utf8(out@);
                let kept = slice(content, cursor, start);
                out.append(kept);
                out.append(new.as_str());
                proof {
                    let gap = bytes.subrange(cursor as int, start as int);
                    let rest = bytes.subrange(start as int, len as int);
                    assert(encode_utf8(out@) == before + gap + encode_utf8(new@)) by {
                        lemma_encode_concat(text, kept@);
                        lemma_encode_concat(text + kept@, new@);
                    }
                    assert forall|k: int| 0 <= k < done.len() implies (#[trigger] done[k]).start
                        <= done[k].end <= start by {
                        assert(done[k] == spans[k]);
                    }
                    lemma_spliced_tail(bytes, done, news.take(i as int), start as int);
                    let head = spliced(bytes.subrange(0, start as int), done, news.take(i as int));
                    assert(bytes.subrange(cursor as int, len as int) =~= gap + rest);
                    assert(before + gap + rest == head + rest) by {
                        assert(before + (gap + rest) =~= before + gap + rest);
                    }
                    assert(before + gap =~= head) by {
                        assert((before + gap + rest).subrange(0, (before + gap).len() as int)
                            =~= before + gap);
                        assert((head + rest).subrange(0, head.len() as int) =~= head);
                    }
                    assert(decisions@.take(i + 1)[i as int] is Some);
                }
                cursor = end;
                changed = true;
            },
            None => {
                proof {
                    if all_kept(decisions@.take(i as int)) {
                        assert forall|k: int| 0 <= k < i + 1 implies (#[trigger] decisions@.take(
                            i + 1,
                        )[k]) is None by {
                            if k < i {
                                assert(decisions@.take(i as int)[k] is None);
                            }
                        }
                    } else {
                        let k = choose|k: int|
                            0 <= k < i && !((#[trigger] decisions@.take(i as int)[k]) is None);
                        assert(!(decisions@.take(i + 1)[k] is None));
                    }
                }
            },
        }
        i = i + 1;
    }
    proof {
        assert(spans@.take(i as int) =~= spans@);
        assert(news.take(i as int) =~= news);
        assert(decisions@.take(i as int) =~= decisions@);
    }
    if changed {
        let rest = slice(content, cursor, len);
        proof {
            lemma_encode_concat(out@, rest@);
        }
        out.append(rest);
        Cow::Owned(out)
    } else {
        proof {
            assert(bytes.subrange(0, len as int) =~= bytes);
            assert(encode_utf8(out@) =~= Seq::<u8>::empty());
            assert(encode_utf8(out@) + bytes =~= bytes);
        }
        Cow::Borrowed(content)
    }
}

} // verus!
