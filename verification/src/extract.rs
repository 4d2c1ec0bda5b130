//! Text extraction from markup documents, and indexing of one document.
//!
//! A document's raw bytes are parsed as markup; only character data is
//! kept, each segment followed by one inserted separator space. Markup
//! structure contributes nothing. A document that does not parse is
//! reported and skipped by the caller, never fatal to a whole indexing
//! run.
use crate::index::{count_tokens, token_counts, CorpusIndex, TermFreq};
use crate::strutil::{push_char, str_to_chars};
use crate::tokenizer::tokens_of;
use vstd::prelude::*;
use vstd::string::StringExecFns;

verus! {

/// The character-data segments that parsing `bytes` as markup yields, in
/// document order, or `None` when the bytes do not parse. A function of
/// the bytes alone.
pub uninterp spec fn xml_text_segments(bytes: Seq<u8>) -> Option<Seq<Seq<char>>>;

/// Relies on `xml::reader::EventReader`: pulls the document's events and
/// keeps the text of the `Characters` ones, which is the document's
/// character data in order; an error event means the bytes do not parse,
/// and the `Err` carries the reported position and message. The outcome
/// depends on the bytes alone.
#[verifier::external_body]
fn xml_segments(bytes: &[u8]) -> (r: Result<Vec<String>, String>)
    ensures
        r is Ok <==> xml_text_segments(bytes@) is Some,
        r matches Ok(segs) ==> Some(segs.deep_view()) == xml_text_segments(bytes@),
{
    let mut reader = xml::reader::EventReader::new(bytes);
    let mut segs: Vec<String> = Vec::new();
    loop {
        match reader.next() {
            Ok(xml::reader::XmlEvent::EndDocument) => return Ok(segs),
            Ok(xml::reader::XmlEvent::Characters(text)) => segs.push(text),
            Ok(_) => {},
            Err(e) => return Err(format!("{e}")),
        }
    }
}

/// The extracted text: every segment in order, each followed by a single
/// separator space.
pub open spec fn join_segments(segs: Seq<Seq<char>>) -> Seq<char>
    decreases segs.len(),
{
    if segs.len() == 0 {
        Seq::empty()
    } else {
        join_segments(segs.drop_last()) + segs.last() + seq![' ']
    }
}

/// Extracts the plain text of a markup document: the concatenation of its
/// character-data segments, each followed by one separator space, or the
/// parse diagnostic when the bytes do not parse.
pub fn xml_to_string(bytes: &[u8]) -> (r: Result<String, String>)
    ensures
        r is Ok <==> xml_text_segments(bytes@) is Some,
        r matches Ok(content) ==> (xml_text_segments(bytes@) matches Some(segs) && content@
            == join_segments(segs)),
{
    let segs = match xml_segments(bytes) {
        Ok(segs) => segs,
        Err(e) => {
            return Err(e);
        },
    };
    let ghost sv = segs.deep_view();
    let mut content = String::new();
    let n = segs.len();
    let mut i: usize = 0;
    while i < n
        invariant
            i <= n,
            n == segs@.len(),
            sv == segs.deep_view(),
            content@ == join_segments(sv.take(i as int)),
        decreases n - i,
    {
        content.append(segs[i].as_str());
        push_char(&mut content, ' ');
        proof {
            assert(sv.take(i + 1).drop_last() =~= sv.take(i as int));
            assert(sv.take(i + 1).last() == sv[i as int]);
            assert(sv[i as int] == segs@[i as int]@);
        }
        i = i + 1;
    }
    proof {
        assert(sv.take(n as int) =~= sv);
    }
    Ok(content)
}

/// Extracts and tokenizes one document and counts its tokens, or reports
/// why its bytes do not parse.
pub fn index_doc(bytes: &[u8]) -> (r: Result<TermFreq, String>)
    ensures
        r is Ok <==> xml_text_segments(bytes@) is Some,
        r matches Ok(tf) ==> (xml_text_segments(bytes@) matches Some(segs) && tf.wf() && tf@
            == token_counts(tokens_of(join_segments(segs))) && tf.total_count() == tokens_of(
            join_segments(segs),
        ).len()),
{
    let content = match xml_to_string(bytes) {
        Ok(content) => content,
        Err(e) => {
            return Err(e);
        },
    };
    let chars = str_to_chars(content.as_str());
    Ok(count_tokens(chars.as_slice()))
}

/// Indexes one document into the corpus index under `path`. When the
/// document's bytes do not parse, the index is unchanged and the parse
/// diagnostic is returned, for the caller to report and carry on.
pub fn add_document(tfi: &mut CorpusIndex, path: String, bytes: &[u8]) -> (r: Result<(), String>)
    requires
        old(tfi).wf(),
    ensures
        final(tfi).wf(),
        r is Ok <==> xml_text_segments(bytes@) is Some,
        r is Ok ==> (xml_text_segments(bytes@) matches Some(segs) && final(tfi)@ == old(tfi)@.insert(
            path@,
            token_counts(tokens_of(join_segments(segs))),
        )),
        r is Err ==> final(tfi)@ == old(tfi)@,
{
    match index_doc(bytes) {
        Ok(tf) => {
            tfi.insert(path, tf);
            Ok(())
        },
        Err(e) => Err(e),
    }
}

} // verus!
