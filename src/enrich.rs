//! The decisions of the "enrich" rewrite: when it applies, and how the words
//! of a heading are wrapped.
use vstd::prelude::*;
use vstd::string::*;
use crate::assign::header_name;
use crate::text::{split_on, split_text};

verus! {

/// Each word in its own `<span>` element, side by side.
pub open spec fn wrapped(words: Seq<Seq<char>>) -> Seq<char>
    decreases words.len(),
{
    if words.len() == 0 {
        Seq::empty()
    } else {
        wrapped(words.drop_last()) + "<span>"@ + words.last() + "</span>"@
    }
}

/// The words of `text` between single spaces, each wrapped in `<span>`: the
/// spaces themselves are dropped, and two spaces in a row give an empty span.
pub open spec fn wrap_text(text: Seq<char>) -> Seq<char> {
    wrapped(split_on(text, ' '))
}

/// Wraps every space-separated word of `text` in a `<span>` element.
pub fn wrap_words(text: &str) -> (r: String)
    ensures
        r@ == wrap_text(text@),
{
    let words = split_text(text, ' ');
    let ghost wv = words@.map_values(|w: String| w@);
    let mut out = String::new();
    let mut i: usize = 0;
    while i < words.len()
        invariant
            i <= words.len(),
            wv == words@.map_values(|w: String| w@),
            wv == split_on(text@, ' '),
            out@ == wrapped(wv.subrange(0, i as int)),
        decreases words.len() - i,
    {
        let ghost sub = wv.subrange(0, i + 1);
        assert(sub.drop_last() =~= wv.subrange(0, i as int));
        assert(sub.last() == words[i as int]@);
        out.append("<span>");
        out.append(words[i].as_str());
        out.append("</span>");
        i = i + 1;
    }
    assert(wv.subrange(0, words.len() as int) =~= wv);
    out
}

/// One chunk of a heading's text: the text held back after it, and what
/// replaces the chunk. Chunks before the last of a text node are held back
/// and replaced by nothing, so no word is ever cut; the last one is replaced
/// by the whole text of the node, its words wrapped.
pub open spec fn text_step(held: Seq<char>, chunk: Seq<char>, last: bool) -> (Seq<char>, Seq<char>) {
    if last {
        (Seq::empty(), wrap_text(held + chunk))
    } else {
        (held + chunk, Seq::empty())
    }
}

/// The chunks side by side.
pub open spec fn joined(chunks: Seq<Seq<char>>) -> Seq<char>
    decreases chunks.len(),
{
    if chunks.len() == 0 {
        Seq::empty()
    } else {
        joined(chunks.drop_last()) + chunks.last()
    }
}

/// Feeds chunks that are not the last of their node, in order, starting from
/// `held`: the text held back at the end, and all that replaced them.
pub open spec fn feed(held: Seq<char>, chunks: Seq<Seq<char>>) -> (Seq<char>, Seq<char>)
    decreases chunks.len(),
{
    if chunks.len() == 0 {
        (held, Seq::empty())
    } else {
        let before = feed(held, chunks.drop_last());
        let step = text_step(before.0, chunks.last(), false);
        (step.0, before.1 + step.1)
    }
}

/// However a heading's text is cut into chunks, the output is that of the
/// whole text in one piece: each word wrapped once, whole.
pub proof fn lemma_chunks_wrap_whole(chunks: Seq<Seq<char>>, last: Seq<char>)
    ensures
        feed(Seq::empty(), chunks).0 == joined(chunks),
        feed(Seq::empty(), chunks).1 == Seq::<char>::empty(),
        text_step(feed(Seq::empty(), chunks).0, last, true).1 == wrap_text(joined(chunks) + last),
    decreases chunks.len(),
{
    if chunks.len() > 0 {
        lemma_chunks_wrap_whole(chunks.drop_last(), last);
        assert(Seq::<char>::empty() + Seq::<char>::empty() =~= Seq::<char>::empty());
    } else {
        assert(Seq::<char>::empty() + last =~= last);
    }
}

/// Handles one chunk of a heading's text, given the text held back before it.
pub fn h1_text_step(held: &str, chunk: &str, last_in_text_node: bool) -> (r: (String, String))
    ensures
        (r.0@, r.1@) == text_step(held@, chunk@, last_in_text_node),
{
    let whole = String::from_str(held).concat(chunk);
    if last_in_text_node {
        (String::new(), wrap_words(whole.as_str()))
    } else {
        (whole, String::new())
    }
}

/// The value of the last header named `name`, if there is one (a later
/// header of the same name replaces an earlier one).
pub open spec fn header_value(hs: Seq<(Seq<char>, Seq<char>)>, name: Seq<char>) -> Option<Seq<char>>
    decreases hs.len(),
{
    if hs.len() == 0 {
        None
    } else if hs.last().0 == name {
        Some(hs.last().1)
    } else {
        header_value(hs.drop_last(), name)
    }
}

/// True when the experiment headers put the client in bucket `B` of the
/// `enrich` experiment: the one case in which the response is rewritten.
pub open spec fn enrich_applies(hs: Seq<(Seq<char>, Seq<char>)>) -> bool {
    header_value(hs, header_name("enrich"@)) == Some("B"@)
}

/// Whether the response to a request that carries `headers` gets the
/// enrich rewrite.
pub fn enrich_selected(headers: &Vec<(String, String)>) -> (r: bool)
    ensures
        r == enrich_applies(headers@.map_values(|h: (String, String)| (h.0@, h.1@))),
{
    let ghost hv = headers@.map_values(|h: (String, String)| (h.0@, h.1@));
    let name = crate::assign::make_header_name("enrich");
    let bucket = String::from_str("B");
    proof {
        reveal_strlit("enrich");
        reveal_strlit("B");
    }
    let mut found: Option<bool> = None;
    let mut i: usize = 0;
    while i < headers.len()
        invariant
            i <= headers.len(),
            hv == headers@.map_values(|h: (String, String)| (h.0@, h.1@)),
            name@ == header_name("enrich"@),
            bucket@ == "B"@,
            match found {
                None => header_value(hv.subrange(0, i as int), name@) is None,
                Some(b) => header_value(hv.subrange(0, i as int), name@) is Some
                    && b == (header_value(hv.subrange(0, i as int), name@).unwrap() == bucket@),
            },
        decreases headers.len() - i,
    {
        let ghost sub = hv.subrange(0, i + 1);
        assert(sub.drop_last() =~= hv.subrange(0, i as int));
        assert(sub.last() == (headers[i as int].0@, headers[i as int].1@));
        if headers[i].0 == name {
            found = Some(headers[i].1 == bucket);
        }
        i = i + 1;
    }
    assert(hv.subrange(0, headers.len() as int) =~= hv);
    match found {
        Some(b) => b,
        None => false,
    }
}

} // verus!
