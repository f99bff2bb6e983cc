//! What the commands decide before they act and after.

use crate::columnar::texts_of;
use crate::config::AppConfig;
use crate::document::{Document, DocumentView};
use crate::error::TurboError;
use crate::pipeline::doc_views;
use crate::request::{SearchRequest, SearchType};
use crate::scalar::Scalar;
use crate::text::{
    chars_of, decimal, join2, join3, law_decimal_injective, law_parse_printed, law_trim,
    parse_unsigned, parsed_unsigned, print_unsigned, same, starts_with, trim, trimmed, white,
};
use std::collections::HashMap;
use vstd::prelude::*;
use vstd::utf8::{encode_utf8, is_char_boundary};

verus! {

/// The settings for taking documents in: the given batches and bits, and an
/// in-memory store that starts out empty whatever was stored before.
pub fn ingest_config(config: AppConfig, batch_size: usize, bits: usize) -> (r: AppConfig)
    ensures
        r.pipeline.batch_size == batch_size,
        r.pipeline.turbovec_bits == bits,
        r.pipeline.load_strategy@ == "lazy"@,
        r.embedding == config.embedding,
        r.blob == config.blob,
        r.lance == config.lance,
        r.search == config.search,
{
    let mut config = config;
    config.pipeline.batch_size = batch_size;
    config.pipeline.turbovec_bits = bits;
    config.pipeline.load_strategy = "lazy".to_string();
    config
}

/// The settings for a query: the given search mode.
pub fn query_config(config: AppConfig, mode: &str) -> (r: AppConfig)
    ensures
        r.search.mode@ == mode@,
        r.embedding == config.embedding,
        r.blob == config.blob,
        r.lance == config.lance,
        r.pipeline == config.pipeline,
{
    let mut config = config;
    config.search.mode = mode.to_string();
    config
}

/// The kind of search of a name: by vector for every other name.
pub open spec fn search_type_of(name: Seq<char>) -> SearchType {
    if name == "bm25"@ {
        SearchType::Bm25
    } else if name == "hybrid"@ {
        SearchType::Hybrid { rrf_k: 60 }
    } else {
        SearchType::Vector
    }
}

/// The request for a query. Searches by text carry the text.
pub fn query_request<'a>(
    search_type: &str,
    embedding: &'a [Scalar],
    text: &'a str,
    top_k: usize,
) -> (request: SearchRequest<'a>)
    ensures
        request.query_embedding == embedding,
        request.k == top_k,
        request.filter is None,
        request.search_type == search_type_of(search_type@),
        search_type@ == "bm25"@ ==> request.search_type == SearchType::Bm25 && request.query_text
            == Some(text),
        search_type@ == "hybrid"@ ==> request.search_type == (SearchType::Hybrid { rrf_k: 60 })
            && request.query_text == Some(text),
        search_type@ != "bm25"@ && search_type@ != "hybrid"@ ==> request.search_type
            == SearchType::Vector,
        request.query_text == (if search_type_of(search_type@) == SearchType::Vector {
            None
        } else {
            Some(text)
        }),
{
    proof {
        reveal_strlit("bm25");
        reveal_strlit("hybrid");
        assert("bm25"@.len() == 4 && "hybrid"@.len() == 6);
    }
    if same(search_type, "bm25") {
        SearchRequest::bm25(embedding, text, top_k)
    } else if same(search_type, "hybrid") {
        SearchRequest::hybrid(embedding, text, top_k, 60)
    } else {
        SearchRequest::vector(embedding, top_k)
    }
}

/// The first 55 bytes of a text, or all of it where it has no more.
pub fn snippet(text: &str) -> (head: String)
    requires
        encode_utf8(text@).len() > 55 ==> is_char_boundary(encode_utf8(text@), 55),
    ensures
        encode_utf8(head@) == (if encode_utf8(text@).len() > 55 {
            encode_utf8(text@).take(55)
        } else {
            encode_utf8(text@)
        }),
{
    if text.as_bytes().len() > 55 {
        let (head, _) = text.split_at(55);
        proof {
            let bytes = encode_utf8(text@);
            assert(bytes.take(55) =~= bytes.subrange(0, 55));
        }
        head.to_string()
    } else {
        text.to_string()
    }
}

/// A text cut at its commas.
pub open spec fn cut_at_commas(text: Seq<char>) -> Seq<Seq<char>>
    decreases text.len(),
{
    if text.len() == 0 {
        seq![Seq::empty()]
    } else {
        let before = cut_at_commas(text.drop_last());
        if text.last() == ',' {
            before.push(Seq::empty())
        } else {
            before.drop_last().push(before.last().push(text.last()))
        }
    }
}

/// Cuts a text at its commas.
pub fn split_at_commas(text: &str) -> (pieces: Vec<String>)
    ensures
        texts_of(pieces@) == cut_at_commas(text@),
{
    let chars = chars_of(text);
    let mut pieces: Vec<String> = Vec::new();
    let mut current = String::new();
    let mut i: usize = 0;
    proof {
        assert(chars@.take(0) =~= Seq::<char>::empty());
        assert(texts_of(pieces@).push(current@) =~= cut_at_commas(chars@.take(0)));
    }
    while i < chars.len()
        invariant
            i <= chars@.len(),
            texts_of(pieces@).push(current@) == cut_at_commas(chars@.take(i as int)),
        decreases chars@.len() - i,
    {
        let ghost before = cut_at_commas(chars@.take(i as int));
        let ghost pieces_before = texts_of(pieces@);
        let ghost current_before = current@;
        let c: char = chars[i];
        proof {
            let now = chars@.take(i + 1);
            assert(now.drop_last() =~= chars@.take(i as int));
            assert(now.last() == c);
            assert(before.drop_last() =~= pieces_before);
            assert(before.last() == current_before);
        }
        if c == ',' {
            pieces.push(current);
            current = String::new();
            proof {
                assert(texts_of(pieces@) =~= pieces_before.push(current_before));
                assert(current@ =~= Seq::<char>::empty());
            }
        } else {
            current.push(c);
        }
        i = i + 1;
    }
    let ghost pieces_before = texts_of(pieces@);
    let ghost current_before = current@;
    pieces.push(current);
    proof {
        assert(chars@.take(chars@.len() as int) =~= chars@);
        assert(texts_of(pieces@) =~= pieces_before.push(current_before));
    }
    pieces
}

/// The numbers among pieces of text, white space around them aside.
pub open spec fn numbers_among(pieces: Seq<Seq<char>>) -> Seq<usize>
    decreases pieces.len(),
{
    if pieces.len() == 0 {
        Seq::empty()
    } else {
        let before = numbers_among(pieces.drop_last());
        match parsed_unsigned(trimmed(pieces.last()), usize::MAX as nat) {
            Some(n) => before.push(n as usize),
            None => before,
        }
    }
}

/// The corpus sizes in a comma-separated list; what is no number is passed over.
pub fn parse_scales(scales: &str) -> (sizes: Vec<usize>)
    ensures
        sizes@ == numbers_among(cut_at_commas(scales@)),
{
    let pieces = split_at_commas(scales);
    let ghost texts = texts_of(pieces@);
    let mut sizes: Vec<usize> = Vec::new();
    let mut i: usize = 0;
    proof {
        assert(texts.take(0) =~= Seq::<Seq<char>>::empty());
    }
    while i < pieces.len()
        invariant
            i <= pieces@.len(),
            texts == texts_of(pieces@),
            sizes@ == numbers_among(texts.take(i as int)),
        decreases pieces@.len() - i,
    {
        proof {
            let now = texts.take(i + 1);
            assert(now.drop_last() =~= texts.take(i as int));
            assert(now.last() == pieces@[i as int]@);
        }
        let core = trim(pieces[i].as_str());
        match parse_unsigned(core.as_str(), usize::MAX as u64) {
            Some(n) => {
                sizes.push(n as usize);
            },
            None => {},
        }
        i = i + 1;
    }
    proof {
        assert(texts.take(texts.len() as int) =~= texts);
    }
    sizes
}

/// The text of a made-up document.
pub open spec fn synthetic_text(id: nat) -> Seq<char> {
    "synthetic document "@ + decimal(id) + " for benchmarking"@
}

/// Made-up documents, numbered from 0.
pub fn generate_synthetic_docs(n: usize, _dim: usize) -> (docs: Vec<Document>)
    ensures
        docs@.len() == n,
        forall|i: int|
            0 <= i < n ==> (#[trigger] docs@[i])@ == (DocumentView {
                id: i as u64,
                text: synthetic_text(i as nat),
                metadata: Map::empty(),
            }),
{
    let mut docs: Vec<Document> = Vec::new();
    let mut i: usize = 0;
    while i < n
        invariant
            i <= n,
            docs@.len() == i,
            forall|j: int|
                0 <= j < i ==> (#[trigger] docs@[j])@ == (DocumentView {
                    id: j as u64,
                    text: synthetic_text(j as nat),
                    metadata: Map::empty(),
                }),
        decreases n - i,
    {
        let id: u64 = i as u64;
        let number = print_unsigned(id);
        docs.push(
            Document {
                id,
                text: join3("synthetic document ", number.as_str(), " for benchmarking"),
                metadata: HashMap::new(),
            },
        );
        i = i + 1;
    }
    docs
}

/// The corpus of a benchmark: the first documents of a given one, or made-up
/// ones.
pub fn bench_corpus(corpus: Option<Vec<Document>>, n: usize, dim: usize) -> (docs: Vec<Document>)
    ensures
        match corpus {
            Some(given) => docs@ == (if given@.len() <= n {
                given@
            } else {
                given@.take(n as int)
            }),
            None => docs@.len() == n && forall|i: int|
                0 <= i < n ==> (#[trigger] docs@[i])@ == (DocumentView {
                    id: i as u64,
                    text: synthetic_text(i as nat),
                    metadata: Map::empty(),
                }),
        },
{
    match corpus {
        Some(given) => {
            let mut docs = given;
            docs.truncate(n);
            proof {
                assert(docs@ =~= if given@.len() <= n {
                    given@
                } else {
                    given@.take(n as int)
                });
            }
            docs
        },
        None => generate_synthetic_docs(n, dim),
    }
}

/// Whether numbers do not decrease.
pub open spec fn ascending(samples: Seq<u128>) -> bool {
    forall|i: int, j: int|
        #![trigger samples[i], samples[j]]
        0 <= i <= j < samples.len() ==> samples[i] <= samples[j]
}

proof fn lemma_insert_multiset(s: Seq<u128>, p: int, x: u128)
    requires
        0 <= p <= s.len(),
    ensures
        s.insert(p, x).to_multiset() == s.to_multiset().insert(x),
{
    let all = s.insert(p, x);
    assert(all.remove(p) =~= s);
    all.to_multiset_ensures();
    assert(all[p] == x);
    assert(all.contains(x));
    assert(all.to_multiset().remove(x) == s.to_multiset());
    assert(all.to_multiset() =~= s.to_multiset().insert(x));
}

/// The median and the value that all but one in a hundred samples stay below or
/// at; the samples are sorted on the way.
pub fn percentiles(samples: &mut Vec<u128>) -> (r: (u128, u128))
    requires
        0 < old(samples)@.len(),
        old(samples)@.len() * 99 <= usize::MAX,
    ensures
        ascending(final(samples)@),
        final(samples)@.to_multiset() == old(samples)@.to_multiset(),
        r.0 == final(samples)@[(old(samples)@.len() / 2) as int],
        r.1 == final(samples)@[(old(samples)@.len() * 99 / 100) as int],
{
    let ghost given = samples@;
    let mut sorted: Vec<u128> = Vec::new();
    let mut i: usize = 0;
    proof {
        given.to_multiset_ensures();
        assert(given.take(0) =~= sorted@);
    }
    while i < samples.len()
        invariant
            samples@ == given,
            i <= samples@.len(),
            sorted@.len() == i,
            ascending(sorted@),
            sorted@.to_multiset() == given.take(i as int).to_multiset(),
        decreases samples@.len() - i,
    {
        let x: u128 = samples[i];
        let ghost before = sorted@;
        let mut p: usize = sorted.len();
        while p > 0 && sorted[p - 1] > x
            invariant
                p <= sorted@.len(),
                sorted@ == before,
                forall|j: int| p <= j < sorted@.len() ==> sorted@[j] > x,
            decreases p,
        {
            p = p - 1;
        }
        sorted.insert(p, x);
        proof {
            lemma_insert_multiset(before, p as int, x);
            let now = given.take(i + 1);
            assert(now =~= given.take(i as int).push(x));
            given.take(i as int).to_multiset_ensures();
        }
        i = i + 1;
    }
    proof {
        assert(given.take(given.len() as int) =~= given);
    }
    let n: usize = sorted.len();
    let median: u128 = sorted[n / 2];
    let high: u128 = sorted[n * 99 / 100];
    *samples = sorted;
    (median, high)
}

/// The median is at most the high percentile, and both are among the samples.
pub proof fn law_percentiles(samples: Seq<u128>, sorted: Seq<u128>)
    requires
        samples.len() > 0,
        ascending(sorted),
        sorted.to_multiset() == samples.to_multiset(),
    ensures
        sorted.len() == samples.len(),
        sorted[(samples.len() / 2) as int] <= sorted[(samples.len() * 99 / 100) as int],
        samples.contains(sorted[(samples.len() / 2) as int]),
        samples.contains(sorted[(samples.len() * 99 / 100) as int]),
{
    samples.to_multiset_ensures();
    sorted.to_multiset_ensures();
    let a = (samples.len() / 2) as int;
    let b = (samples.len() * 99 / 100) as int;
    assert(sorted.contains(sorted[a]));
    assert(sorted.contains(sorted[b]));
    assert(sorted.to_multiset().count(sorted[a]) > 0);
    assert(sorted.to_multiset().count(sorted[b]) > 0);
}

/// The order in which the samples came does not matter: samples that are the same but
/// for their order are sorted alike, and so have the same percentiles.
pub proof fn law_percentiles_of_any_order(
    samples: Seq<u128>,
    others: Seq<u128>,
    sorted: Seq<u128>,
    others_sorted: Seq<u128>,
)
    requires
        samples.to_multiset() == others.to_multiset(),
        ascending(sorted),
        sorted.to_multiset() == samples.to_multiset(),
        ascending(others_sorted),
        others_sorted.to_multiset() == others.to_multiset(),
    ensures
        others.len() == samples.len(),
        others_sorted == sorted,
{
    samples.to_multiset_ensures();
    others.to_multiset_ensures();
    let leq = |a: u128, b: u128| a <= b;
    vstd::seq_lib::lemma_sorted_unique(sorted, others_sorted, leq);
}

/// The identifier of a line in a corpus file, as it is written.
pub enum RawId {
    /// A number: its value, if it is an unsigned integer.
    Number(Option<u64>),
    /// A text.
    Text(String),
    /// Something else, or nothing.
    Other,
}

/// A line of a corpus file, taken apart.
pub struct RawDoc {
    pub id: RawId,
    pub beir_id: Option<String>,
    pub title: Option<String>,
    pub text: String,
    pub metadata: HashMap<String, String>,
}

/// A line of a corpus file.
pub enum RawLine {
    /// It could not be read, for the given reason.
    Unreadable(String),
    /// It was read. What it was taken apart into counts only if it is not blank.
    Read { line: String, parsed: Result<RawDoc, String> },
}

/// The number that a text is, or a number to fall back on.
pub open spec fn number_or(text: Seq<char>, fallback: u64) -> u64 {
    match parsed_unsigned(text, u64::MAX as nat) {
        Some(n) => n as u64,
        None => fallback,
    }
}

/// The second identifier of a line as a number, or else the index of the line.
pub open spec fn second_id(raw: RawDoc, index: u64) -> u64 {
    match raw.beir_id {
        Some(text) => number_or(text@, index),
        None => index,
    }
}

/// The identifier of a document: its number, or its text as a number, or else
/// the second identifier as a number; where none of that is a number, the index
/// of the line.
pub open spec fn resolved_id(raw: RawDoc, index: u64) -> u64 {
    match raw.id {
        RawId::Number(Some(n)) => n,
        RawId::Text(text) => number_or(text@, second_id(raw, index)),
        _ => second_id(raw, index),
    }
}

/// The text of a document, with its title before it where there is one.
pub open spec fn resolved_text(raw: RawDoc) -> Seq<char> {
    match raw.title {
        Some(title) => if title@.len() > 0 {
            title@ + ". "@ + raw.text@
        } else {
            raw.text@
        },
        None => raw.text@,
    }
}

/// The document of a line.
pub open spec fn resolved(raw: RawDoc, index: u64) -> DocumentView {
    DocumentView {
        id: resolved_id(raw, index),
        text: resolved_text(raw),
        metadata: raw.metadata@,
    }
}

/// Whether a line is blank.
pub open spec fn blank(line: Seq<char>) -> bool {
    trimmed(line).len() == 0
}

/// Why the line of an index ends the reading, if it does.
pub open spec fn line_fault(line: RawLine, index: int) -> Option<Seq<char>> {
    match line {
        RawLine::Unreadable(reason) => Some(reason@),
        RawLine::Read { line, parsed } => match parsed {
            Err(reason) => if blank(line@) {
                None
            } else {
                Some("line "@ + decimal((index + 1) as nat) + ": "@ + reason@)
            },
            Ok(_) => None,
        },
    }
}

/// Why the first faulty line ends the reading, if there is one.
pub open spec fn first_line_fault(lines: Seq<RawLine>) -> Option<Seq<char>>
    decreases lines.len(),
{
    if lines.len() == 0 {
        None
    } else {
        match first_line_fault(lines.drop_last()) {
            Some(fault) => Some(fault),
            None => line_fault(lines.last(), lines.len() - 1),
        }
    }
}

/// The documents of lines without a fault: one for each that is not blank.
pub open spec fn line_docs(lines: Seq<RawLine>) -> Seq<DocumentView>
    decreases lines.len(),
{
    if lines.len() == 0 {
        Seq::empty()
    } else {
        let before = line_docs(lines.drop_last());
        match lines.last() {
            RawLine::Read { line, parsed: Ok(raw) } => if blank(line@) {
                before
            } else {
                before.push(resolved(raw, (lines.len() - 1) as u64))
            },
            _ => before,
        }
    }
}

/// Whether a line is blank.
pub fn is_blank(line: &str) -> (r: bool)
    ensures
        r == blank(line@),
{
    chars_of(trim(line).as_str()).len() == 0
}

fn parse_or(text: &str, fallback: u64) -> (n: u64)
    ensures
        n == number_or(text@, fallback),
{
    match parse_unsigned(text, u64::MAX) {
        Some(n) => n,
        None => fallback,
    }
}

/// The document of a line.
pub fn resolve(raw: RawDoc, index: u64) -> (doc: Document)
    ensures
        doc@ == resolved(raw, index),
{
    let second: u64 = match &raw.beir_id {
        Some(text) => parse_or(text.as_str(), index),
        None => index,
    };
    let id: u64 = match &raw.id {
        RawId::Number(Some(n)) => *n,
        RawId::Text(text) => parse_or(text.as_str(), second),
        _ => second,
    };
    let text = match &raw.title {
        Some(title) => if chars_of(title.as_str()).len() > 0 {
            join3(title.as_str(), ". ", raw.text.as_str())
        } else {
            raw.text.clone()
        },
        None => raw.text.clone(),
    };
    Document { id, text, metadata: raw.metadata }
}

/// The documents of a corpus file, line by line. Blank lines are passed over; the
/// first line that cannot be read or taken apart ends the reading.
pub fn load_jsonl(lines: Vec<RawLine>) -> (r: Result<Vec<Document>, TurboError>)
    ensures
        r is Ok <==> first_line_fault(lines@) is None,
        r matches Ok(docs) ==> doc_views(docs@) == line_docs(lines@),
        r matches Err(e) ==> e is Other && Some(e.detail()) == first_line_fault(lines@),
{
    let ghost all = lines@;
    let total: usize = lines.len();
    let mut docs: Vec<Document> = Vec::new();
    let mut index: usize = 0;
    proof {
        assert(all.take(0) =~= Seq::<RawLine>::empty());
        assert(doc_views(docs@) =~= Seq::<DocumentView>::empty());
    }
    for line in it: lines
        invariant
            it.seq() == all,
            all == lines@,
            total == all.len(),
            index == it.index(),
            first_line_fault(all.take(it.index())) is None,
            doc_views(docs@) == line_docs(all.take(it.index())),
    {
        let ghost before = docs@;
        proof {
            let now = all.take(it.index() + 1);
            assert(now.drop_last() =~= all.take(it.index()));
            assert(now.last() == line);
        }
        match line {
            RawLine::Unreadable(reason) => {
                proof {
                    lemma_line_fault_stays(all, it.index() + 1);
                }
                return Err(TurboError::Other(reason));
            },
            RawLine::Read { line, parsed } => if !is_blank(line.as_str()) {
                match parsed {
                    Ok(raw) => {
                        docs.push(resolve(raw, index as u64));
                        proof {
                            assert(doc_views(docs@) =~= doc_views(before).push(
                                resolved(raw, index as u64),
                            ));
                        }
                    },
                    Err(reason) => {
                        proof {
                            lemma_line_fault_stays(all, it.index() + 1);
                        }
                        let number = print_unsigned((index as u64) + 1);
                        let place = join3("line ", number.as_str(), ": ");
                        return Err(TurboError::Other(join2(place.as_str(), reason.as_str())));
                    },
                }
            },
        }
        proof {
            assert(index < total);
        }
        index = index + 1;
    }
    proof {
        assert(all.take(all.len() as int) =~= all);
    }
    Ok(docs)
}

proof fn lemma_line_fault_stays(lines: Seq<RawLine>, n: int)
    requires
        0 <= n <= lines.len(),
        first_line_fault(lines.take(n)) is Some,
    ensures
        first_line_fault(lines) == first_line_fault(lines.take(n)),
    decreases lines.len() - n,
{
    if n < lines.len() {
        assert(lines.take(n + 1).drop_last() =~= lines.take(n));
        lemma_line_fault_stays(lines, n + 1);
    } else {
        assert(lines.take(n) =~= lines);
    }
}

/// What is to be done to find out whether a part can be reached.
pub enum Probe {
    /// Ask this address.
    Get(String),
    /// Make this directory.
    MakeDir(String),
    /// Nothing: it can.
    Fine(String),
    /// Nothing: it cannot.
    Failed(String),
}

/// The probe of an embedder.
pub open spec fn is_embedding_probe(config: AppConfig, probe: Probe) -> bool {
    let name = config.embedding.backend@;
    if name == "openai-compat"@ {
        probe matches Probe::Get(url) && url@ == config.embedding.base_url@ + "/models"@
    } else if name == "fastembed"@ || name == "synthetic"@ || name == "mock"@ {
        probe matches Probe::Fine(text) && text@ == "local (no network)"@
    } else {
        probe matches Probe::Failed(text) && text@ == "unknown backend: "@ + name
    }
}

/// How to find out whether the embedder can be reached.
pub fn embedding_probe(config: &AppConfig) -> (probe: Probe)
    ensures
        is_embedding_probe(*config, probe),
        config.embedding.backend@ == "openai-compat"@ ==> (probe matches Probe::Get(url) && url@
            == config.embedding.base_url@ + "/models"@),
        probe is Get ==> config.embedding.backend@ == "openai-compat"@,
        probe is Failed <==> config.embedding.backend@ != "openai-compat"@
            && config.embedding.backend@ != "fastembed"@ && config.embedding.backend@
            != "synthetic"@ && config.embedding.backend@ != "mock"@,
{
    let name = config.embedding.backend.as_str();
    if same(name, "openai-compat") {
        Probe::Get(join2(config.embedding.base_url.as_str(), "/models"))
    } else if same(name, "fastembed") || same(name, "synthetic") || same(name, "mock") {
        Probe::Fine("local (no network)".to_string())
    } else {
        Probe::Failed(join2("unknown backend: ", name))
    }
}

/// The probe of a blob store.
pub open spec fn is_blob_probe(config: AppConfig, endpoint: Option<String>, probe: Probe) -> bool {
    let name = config.blob.backend@;
    if name == "local"@ {
        probe matches Probe::MakeDir(path) && path@ == config.blob.local_path@
    } else if name == "s3"@ {
        probe matches Probe::Get(url) && url@ == (match endpoint {
            Some(endpoint) => endpoint@,
            None => "https://s3.amazonaws.com"@,
        })
    } else {
        probe matches Probe::Failed(text) && text@ == "unknown backend: "@ + name
    }
}

/// How to find out whether the blob store can be reached. Object storage is asked
/// at the given endpoint, where there is one.
pub fn blob_probe(config: &AppConfig, endpoint: Option<String>) -> (probe: Probe)
    ensures
        is_blob_probe(*config, endpoint, probe),
        config.blob.backend@ == "local"@ ==> (probe matches Probe::MakeDir(path) && path@
            == config.blob.local_path@),
        config.blob.backend@ == "s3"@ ==> (probe matches Probe::Get(url) && (endpoint matches Some(
            given,
        ) ==> url@ == given@)),
        probe is Failed <==> config.blob.backend@ != "local"@ && config.blob.backend@ != "s3"@,
{
    let name = config.blob.backend.as_str();
    proof {
        reveal_strlit("local");
        reveal_strlit("s3");
        assert("local"@.len() == 5 && "s3"@.len() == 2);
    }
    if same(name, "local") {
        Probe::MakeDir(config.blob.local_path.clone())
    } else if same(name, "s3") {
        match endpoint {
            Some(endpoint) => Probe::Get(endpoint),
            None => Probe::Get("https://s3.amazonaws.com".to_string()),
        }
    } else {
        Probe::Failed(join2("unknown backend: ", name))
    }
}

/// How to find out whether the durable store can be reached: object storage was
/// looked at with the blobs, a directory is made.
pub fn lance_probe(config: &AppConfig) -> (probe: Probe)
    ensures
        if "s3://"@.is_prefix_of(config.lance.uri@) {
            probe matches Probe::Fine(text) && text@ == "s3-native (verified with blob)"@
        } else {
            probe matches Probe::MakeDir(path) && path@ == config.lance.uri@
        },
{
    if starts_with(config.lance.uri.as_str(), "s3://") {
        Probe::Fine("s3-native (verified with blob)".to_string())
    } else {
        Probe::MakeDir(config.lance.uri.clone())
    }
}

/// What an attempt to make a directory says.
pub fn directory_status(path: &str, outcome: Result<(), String>) -> (status: Result<String, String>)
    ensures
        match outcome {
            Ok(()) => status matches Ok(text) && text@ == "path: "@ + path@,
            Err(reason) => status == Err::<String, String>(reason),
        },
{
    match outcome {
        Ok(()) => Ok(join2("path: ", path)),
        Err(reason) => Err(reason),
    }
}

/// What an answer over HTTP says.
pub fn http_status(outcome: Result<String, String>) -> (status: Result<String, String>)
    ensures
        match outcome {
            Ok(code) => status matches Ok(text) && text@ == "HTTP "@ + code@,
            Err(reason) => status == Err::<String, String>(reason),
        },
{
    match outcome {
        Ok(code) => Ok(join2("HTTP ", code.as_str())),
        Err(reason) => Err(reason),
    }
}

/// What the embedder is called: the backend and the model.
pub fn embedding_detail(config: &AppConfig) -> (detail: String)
    ensures
        detail@ == config.embedding.backend@ + " / "@ + config.embedding.model@,
{
    join3(config.embedding.backend.as_str(), " / ", config.embedding.model.as_str())
}

/// A text filled up with blanks to a width.
pub open spec fn padded(text: Seq<char>, width: nat) -> Seq<char> {
    if text.len() >= width {
        text
    } else {
        text + Seq::new((width - text.len()) as nat, |i: int| ' ')
    }
}

/// Fills a text up with blanks to a width.
pub fn pad_right(text: &str, width: usize) -> (line: String)
    ensures
        line@ == padded(text@, width as nat),
{
    let mut line = text.to_string();
    let mut n: usize = chars_of(text).len();
    let ghost len = n as int;
    proof {
        assert(line@ =~= text@ + Seq::new(0, |i: int| ' '));
    }
    while n < width
        invariant
            len == text@.len(),
            len <= n,
            n <= width || n == len,
            line@ == text@ + Seq::new((n - len) as nat, |i: int| ' '),
        decreases width - n,
    {
        line.push(' ');
        n = n + 1;
        proof {
            assert(line@ =~= text@ + Seq::new((n - len) as nat, |i: int| ' '));
        }
    }
    proof {
        assert(line@ =~= padded(text@, width as nat));
    }
    line
}

/// A line of the report on the parts.
pub open spec fn health_line(
    component: Seq<char>,
    detail: Seq<char>,
    mark: Seq<char>,
    words: Seq<char>,
) -> Seq<char> {
    mark + padded(component, 12) + " "@ + padded(detail, 36) + words
}

/// A line of the report on the parts: what the part is, and what was found out.
pub fn health_row(component: &str, detail: &str, result: &Result<String, String>) -> (line: String)
    ensures
        line@ == (match *result {
            Ok(text) => health_line(component@, detail@, "  ✓ "@, " "@ + text@),
            Err(reason) => health_line(component@, detail@, "  ✗ "@, " ERROR: "@ + reason@),
        }),
{
    let (mark, words) = match result {
        Ok(text) => ("  ✓ ", join2(" ", text.as_str())),
        Err(reason) => ("  ✗ ", join2(" ERROR: ", reason.as_str())),
    };
    let head = join3(mark, pad_right(component, 12).as_str(), " ");
    join3(head.as_str(), pad_right(detail, 36).as_str(), words.as_str())
}

/// The port for metrics: the given one, if it is a port, and 9091 otherwise.
pub fn metrics_port(value: Option<String>) -> (port: u16)
    ensures
        port == (match value {
            Some(text) => match parsed_unsigned(text@, u16::MAX as nat) {
                Some(n) => n as u16,
                None => 9091,
            },
            None => 9091,
        }),
{
    match value {
        Some(text) => match parse_unsigned(text.as_str(), u16::MAX as u64) {
            Some(n) => n as u16,
            None => 9091,
        },
        None => 9091,
    }
}

/// The identifier of a line is the first of these that is a number: the number it has,
/// its text, its second identifier. A number printed in decimal is taken for what it is,
/// up to the greatest there is.
pub proof fn law_identifier_is_the_first_number(raw: RawDoc, index: u64, n: u64)
    ensures
        raw.id == RawId::Number(Some(n)) ==> resolved_id(raw, index) == n,
        raw.id matches RawId::Text(text) && text@ == decimal(n as nat) ==> resolved_id(raw, index)
            == n,
        raw.id matches RawId::Text(text) && parsed_unsigned(text@, u64::MAX as nat) == Some(
            n as nat,
        ) ==> resolved_id(raw, index) == n,
        no_own_number(raw) && (raw.beir_id matches Some(text) && text@ == decimal(n as nat))
            ==> resolved_id(raw, index) == n,
        no_own_number(raw) && (raw.beir_id matches Some(text) && parsed_unsigned(
            text@,
            u64::MAX as nat,
        ) == Some(n as nat)) ==> resolved_id(raw, index) == n,
{
    law_parse_printed(n as nat, u64::MAX as nat);
}

/// Whether the identifier of a line is no number, second identifiers aside.
pub open spec fn no_own_number(raw: RawDoc) -> bool {
    match raw.id {
        RawId::Number(n) => n is None,
        RawId::Text(text) => parsed_unsigned(text@, u64::MAX as nat) is None,
        RawId::Other => true,
    }
}

/// The index of a line is its identifier exactly where no identifier of the line is a
/// number; where one is, the index does not matter.
pub proof fn law_index_is_the_last_resort(raw: RawDoc, index: u64, other: u64)
    ensures
        no_own_number(raw) && (raw.beir_id matches Some(text) ==> parsed_unsigned(
            text@,
            u64::MAX as nat,
        ) is None) ==> resolved_id(raw, index) == index,
        !no_own_number(raw) || (raw.beir_id matches Some(text) && parsed_unsigned(
            text@,
            u64::MAX as nat,
        ) is Some) ==> resolved_id(raw, index) == resolved_id(raw, other),
{
}

/// The text of a document ends with the text of its line, whole. Before it stands
/// nothing, or the whole title, a full stop and a blank; nothing stands there exactly
/// where there is no title or an empty one. Metadata is taken over.
pub proof fn law_document_of_line(raw: RawDoc, index: u64)
    ensures
        resolved(raw, index).metadata == raw.metadata@,
        resolved(raw, index).id == resolved_id(raw, index),
        raw.text@.is_suffix_of(resolved(raw, index).text),
        raw.title is None || (raw.title matches Some(title) && title@.len() == 0) ==> resolved(
            raw,
            index,
        ).text == raw.text@,
        raw.title matches Some(title) ==> (title@.len() > 0 ==> {
            let text = resolved(raw, index).text;
            &&& text.len() == title@.len() + 2 + raw.text@.len()
            &&& title@.is_prefix_of(text)
            &&& text[title@.len() as int] == '.'
            &&& text[title@.len() as int + 1] == ' '
        }),
{
    reveal_strlit(". ");
    let text = resolved(raw, index).text;
    assert(raw.text@.is_suffix_of(text)) by {
        assert(text.subrange(text.len() - raw.text@.len(), text.len() as int) =~= raw.text@);
    }
    if raw.title is Some && raw.title.unwrap()@.len() > 0 {
        let title = raw.title.unwrap();
        assert(text.subrange(0, title@.len() as int) =~= title@);
        assert(text[title@.len() as int] == ". "@[0]);
        assert(text[title@.len() as int + 1] == ". "@[1]);
    }
}

/// Whether a line of a corpus file has a character that shows.
pub open spec fn shows(line: Seq<char>) -> bool {
    exists|j: int| 0 <= j < line.len() && !white(#[trigger] line[j])
}

/// How many of the first `n` lines were read and show something.
pub open spec fn shown_lines(lines: Seq<RawLine>, n: int) -> int
    decreases n,
{
    if n <= 0 {
        0
    } else {
        shown_lines(lines, n - 1) + if lines[n - 1] matches RawLine::Read { line, .. } && shows(
            line@,
        ) {
            1int
        } else {
            0
        }
    }
}

proof fn lemma_blank_shows(line: Seq<char>)
    ensures
        blank(line) <==> !shows(line),
{
    law_trim(line);
}

proof fn lemma_shown_prefix(a: Seq<RawLine>, b: Seq<RawLine>, n: int)
    requires
        n <= a.len(),
        n <= b.len(),
        forall|i: int| 0 <= i < n ==> a[i] == b[i],
    ensures
        shown_lines(a, n) == shown_lines(b, n),
        0 <= shown_lines(a, n),
    decreases n,
{
    if n > 0 {
        lemma_shown_prefix(a, b, n - 1);
        assert(a[n - 1] == b[n - 1]);
    }
}

/// Reading a corpus file gives one document for each line that shows something, in the
/// order of the lines: the identifier, text and metadata of line number `i` are those
/// of the document that has as many before it as there are such lines before.
pub proof fn law_every_line_is_a_document(lines: Seq<RawLine>, i: int)
    requires
        first_line_fault(lines) is None,
        0 <= i < lines.len(),
        lines.len() <= u64::MAX,
    ensures
        line_docs(lines).len() == shown_lines(lines, lines.len() as int),
        lines[i] matches RawLine::Read { line, parsed: Ok(raw) } ==> (shows(line@) ==> {
            let place = shown_lines(lines, i);
            &&& 0 <= place < line_docs(lines).len()
            &&& line_docs(lines)[place].id == resolved_id(raw, i as u64)
            &&& line_docs(lines)[place].text == resolved_text(raw)
            &&& line_docs(lines)[place].metadata == raw.metadata@
        }),
    decreases lines.len(),
{
    let rest = lines.drop_last();
    let last = lines.len() - 1;
    lemma_shown_prefix(lines, rest, last);
    lemma_shown_prefix(lines, rest, i);
    assert(lines.last() == lines[last]);
    match lines.last() {
        RawLine::Read { line, .. } => {
            lemma_blank_shows(line@);
        },
        _ => {},
    }
    if rest.len() > 0 {
        law_every_line_is_a_document(
            rest,
            if i < last {
                i
            } else {
                0
            },
        );
        if i < last {
            assert(rest[i] == lines[i]);
        }
    } else {
        assert(line_docs(rest).len() == 0);
        assert(shown_lines(rest, 0) == 0);
    }
}

/// Whether a line ends the reading of a corpus file.
pub open spec fn ends_reading(line: RawLine) -> bool {
    match line {
        RawLine::Unreadable(_) => true,
        RawLine::Read { line, parsed } => shows(line@) && parsed is Err,
    }
}

/// Reading ends without documents exactly where some line could not be read, or shows
/// something and could not be taken apart; and it ends for the first such line: with the
/// words of the error, after the number of the line where it was read, counted from one.
pub proof fn law_first_faulty_line(lines: Seq<RawLine>, i: int)
    requires
        0 <= i < lines.len(),
        ends_reading(lines[i]),
        forall|j: int| 0 <= j < i ==> !ends_reading(#[trigger] lines[j]),
    ensures
        first_line_fault(lines) == Some(
            match lines[i] {
                RawLine::Unreadable(reason) => reason@,
                RawLine::Read { line, parsed } => "line "@ + decimal((i + 1) as nat) + ": "@
                    + parsed->Err_0@,
            },
        ),
    decreases lines.len(),
{
    let rest = lines.drop_last();
    match lines[i] {
        RawLine::Read { line, .. } => {
            lemma_blank_shows(line@);
        },
        _ => {},
    }
    if i < rest.len() {
        assert(rest[i] == lines[i]);
        assert forall|j: int| 0 <= j < i implies !ends_reading(#[trigger] rest[j]) by {
            assert(rest[j] == lines[j]);
        }
        law_first_faulty_line(rest, i);
    } else {
        assert forall|j: int| 0 <= j < rest.len() implies !ends_reading(#[trigger] rest[j]) by {
            assert(rest[j] == lines[j]);
        }
        law_no_faulty_line(rest);
    }
}

/// Where no line ends the reading there is no fault.
pub proof fn law_no_faulty_line(lines: Seq<RawLine>)
    requires
        forall|j: int| 0 <= j < lines.len() ==> !ends_reading(#[trigger] lines[j]),
    ensures
        first_line_fault(lines) is None,
    decreases lines.len(),
{
    if lines.len() > 0 {
        let rest = lines.drop_last();
        assert forall|j: int| 0 <= j < rest.len() implies !ends_reading(#[trigger] rest[j]) by {
            assert(rest[j] == lines[j]);
        }
        law_no_faulty_line(rest);
        assert(!ends_reading(lines[lines.len() - 1]));
        match lines.last() {
            RawLine::Read { line, .. } => {
                lemma_blank_shows(line@);
            },
            _ => {},
        }
    }
}

/// Pieces with commas between them.
pub open spec fn with_commas(pieces: Seq<Seq<char>>) -> Seq<char>
    decreases pieces.len(),
{
    if pieces.len() == 0 {
        Seq::empty()
    } else if pieces.len() == 1 {
        pieces[0]
    } else {
        with_commas(pieces.drop_last()) + seq![','] + pieces.last()
    }
}

/// Cutting a text at its commas loses nothing: with commas between them the pieces are
/// the text again. No piece has a comma of its own.
pub proof fn law_cut_at_commas(text: Seq<char>)
    ensures
        cut_at_commas(text).len() > 0,
        with_commas(cut_at_commas(text)) == text,
        forall|i: int, j: int|
            0 <= i < cut_at_commas(text).len() && 0 <= j < cut_at_commas(text)[i].len()
                ==> #[trigger] cut_at_commas(text)[i][j] != ',',
    decreases text.len(),
{
    let pieces = cut_at_commas(text);
    if text.len() == 0 {
        assert(with_commas(pieces) =~= text);
    } else {
        let before = cut_at_commas(text.drop_last());
        law_cut_at_commas(text.drop_last());
        assert(text =~= text.drop_last().push(text.last()));
        if text.last() == ',' {
            assert(pieces.drop_last() =~= before);
            assert(with_commas(pieces) =~= text);
        } else {
            assert(pieces.drop_last() =~= before.drop_last());
            assert(with_commas(pieces) =~= with_commas(before).push(text.last())) by {
                if before.len() > 1 {
                    assert(pieces.last() == before.last().push(text.last()));
                }
            }
        }
        assert forall|i: int, j: int|
            0 <= i < pieces.len() && 0 <= j < pieces[i].len() implies #[trigger] pieces[i][j]
            != ',' by {
            if i < pieces.len() - 1 {
                assert(pieces[i] == before[i]);
            } else if text.last() != ',' {
                if j < before.last().len() {
                    assert(before[before.len() - 1][j] != ',');
                }
            }
        }
    }
}

proof fn lemma_cut_joined(a: Seq<char>, b: Seq<char>)
    ensures
        cut_at_commas(a + seq![','] + b) == cut_at_commas(a) + cut_at_commas(b),
    decreases b.len(),
{
    let all = a + seq![','] + b;
    law_cut_at_commas(a);
    law_cut_at_commas(b);
    if b.len() == 0 {
        assert(all.drop_last() =~= a);
        assert(all.last() == ',');
        assert(cut_at_commas(all) =~= cut_at_commas(a) + cut_at_commas(b));
    } else {
        let rest = b.drop_last();
        lemma_cut_joined(a, rest);
        law_cut_at_commas(rest);
        assert(all.drop_last() =~= a + seq![','] + rest);
        assert(all.last() == b.last());
        assert(cut_at_commas(all) =~= cut_at_commas(a) + cut_at_commas(b));
    }
}

proof fn lemma_numbers_joined(a: Seq<Seq<char>>, b: Seq<Seq<char>>)
    ensures
        numbers_among(a + b) == numbers_among(a) + numbers_among(b),
    decreases b.len(),
{
    if b.len() == 0 {
        assert(a + b =~= a);
        assert(numbers_among(a) + numbers_among(b) =~= numbers_among(a));
    } else {
        lemma_numbers_joined(a, b.drop_last());
        assert((a + b).drop_last() =~= a + b.drop_last());
        assert(numbers_among(a + b) =~= numbers_among(a) + numbers_among(b));
    }
}

/// The sizes in a list are those of its parts, one after the other: in two lists with a
/// comma between them those of the first and then those of the second.
pub proof fn law_scales_of_parts(a: Seq<char>, b: Seq<char>)
    ensures
        numbers_among(cut_at_commas(a + seq![','] + b)) == numbers_among(cut_at_commas(a))
            + numbers_among(cut_at_commas(b)),
{
    lemma_cut_joined(a, b);
    lemma_numbers_joined(cut_at_commas(a), cut_at_commas(b));
}

/// A list of one part has that size alone where it is a number, with white space around
/// it or without, and none where it is not.
pub proof fn law_scale_of_one_part(text: Seq<char>, n: usize)
    requires
        forall|i: int| 0 <= i < text.len() ==> #[trigger] text[i] != ',',
    ensures
        trimmed(text) == decimal(n as nat) ==> numbers_among(cut_at_commas(text)) == seq![n],
        parsed_unsigned(trimmed(text), usize::MAX as nat) == Some(n as nat) ==> numbers_among(
            cut_at_commas(text),
        ) == seq![n],
        parsed_unsigned(trimmed(text), usize::MAX as nat) is None ==> numbers_among(
            cut_at_commas(text),
        ).len() == 0,
{
    lemma_one_part(text);
    law_parse_printed(n as nat, usize::MAX as nat);
    let pieces = seq![text];
    assert(pieces.drop_last() =~= Seq::<Seq<char>>::empty());
    assert(numbers_among(pieces.drop_last()) =~= Seq::<usize>::empty());
    assert(pieces.last() == text);
    assert(parsed_unsigned(trimmed(text), usize::MAX as nat) == Some(n as nat) ==> numbers_among(
        pieces,
    ) =~= seq![n]);
}

proof fn lemma_one_part(text: Seq<char>)
    requires
        forall|i: int| 0 <= i < text.len() ==> #[trigger] text[i] != ',',
    ensures
        cut_at_commas(text) == seq![text],
    decreases text.len(),
{
    if text.len() == 0 {
        assert(text =~= Seq::<char>::empty());
        assert(cut_at_commas(text) =~= seq![text]);
    } else {
        let rest = text.drop_last();
        assert forall|i: int| 0 <= i < rest.len() implies #[trigger] rest[i] != ',' by {
            assert(rest[i] == text[i]);
        }
        lemma_one_part(rest);
        assert(text[text.len() - 1] != ',');
        assert(rest.push(text.last()) =~= text);
        assert(cut_at_commas(text) =~= seq![text]);
    }
}

/// Made-up documents are told apart by their texts.
pub proof fn law_synthetic_texts_differ(a: nat, b: nat)
    requires
        synthetic_text(a) == synthetic_text(b),
    ensures
        a == b,
{
    let head = "synthetic document "@;
    let tail = " for benchmarking"@;
    let n = head.len() as int;
    assert(synthetic_text(a).subrange(n, synthetic_text(a).len() - tail.len()) =~= decimal(a));
    assert(synthetic_text(b).subrange(n, synthetic_text(b).len() - tail.len()) =~= decimal(b));
    law_decimal_injective(a, b);
}

/// Sorted samples are in order throughout: none before the middle is above the one in the
/// middle, and none after it is below.
pub proof fn law_sorted_samples(sorted: Seq<u128>, i: int)
    requires
        ascending(sorted),
        0 <= i < sorted.len(),
    ensures
        i <= sorted.len() / 2 ==> sorted[i] <= sorted[(sorted.len() / 2) as int],
        i >= sorted.len() / 2 ==> sorted[i] >= sorted[(sorted.len() / 2) as int],
        i + 1 < sorted.len() ==> sorted[i] <= sorted[i + 1],
{
}

/// A padded text begins with the text, whole; what follows is blanks; and it is as wide
/// as asked, unless the text is wider already.
pub proof fn law_padded(text: Seq<char>, width: nat)
    ensures
        padded(text, width).len() == (if text.len() < width {
            width
        } else {
            text.len()
        }),
        text.is_prefix_of(padded(text, width)),
        forall|i: int|
            text.len() <= i < padded(text, width).len() ==> #[trigger] padded(text, width)[i]
                == ' ',
{
    assert(padded(text, width).subrange(0, text.len() as int) =~= text);
}

/// A line of the report holds all it is made of: it begins with the mark, the part comes
/// next, then the detail, each in its own column where it fits, and it ends with the
/// words.
pub proof fn law_health_line(
    component: Seq<char>,
    detail: Seq<char>,
    mark: Seq<char>,
    words: Seq<char>,
)
    requires
        component.len() <= 12,
        detail.len() <= 36,
    ensures
        ({
            let line = health_line(component, detail, mark, words);
            let n = mark.len() as int;
            &&& line.len() == n + 12 + 1 + 36 + words.len()
            &&& line.subrange(0, n) == mark
            &&& line.subrange(n, n + component.len()) == component
            &&& line.subrange(n + 13, n + 13 + detail.len()) == detail
            &&& line.subrange(n + 49, line.len() as int) == words
            &&& forall|i: int|
                n + component.len() <= i < n + 13 || n + 13 + detail.len() <= i < n + 49
                    ==> #[trigger] line[i] == ' '
        }),
{
    reveal_strlit(" ");
    let line = health_line(component, detail, mark, words);
    let n = mark.len() as int;
    law_padded(component, 12);
    law_padded(detail, 36);
    assert(line.subrange(0, n) =~= mark);
    assert(line.subrange(n, n + component.len()) =~= component);
    assert(line.subrange(n + 13, n + 13 + detail.len()) =~= detail);
    assert(line.subrange(n + 49, line.len() as int) =~= words);
    assert forall|i: int|
        n + component.len() <= i < n + 13 || n + 13 + detail.len() <= i < n
            + 49 implies #[trigger] line[i] == ' ' by {
        if i < n + 12 {
            assert(line[i] == padded(component, 12)[i - n]);
        } else if i == n + 12 {
            assert(line[i] == " "@[0]);
        } else {
            assert(line[i] == padded(detail, 36)[i - n - 13]);
        }
    }
}

/// Each kind of search has one name, and every other name means a search by vector.
pub proof fn law_search_types(name: Seq<char>)
    ensures
        search_type_of(name) == SearchType::Bm25 <==> name == "bm25"@,
        search_type_of(name) == (SearchType::Hybrid { rrf_k: 60 }) <==> name == "hybrid"@,
        search_type_of(name) == SearchType::Vector <==> name != "bm25"@ && name != "hybrid"@,
{
    reveal_strlit("bm25");
    reveal_strlit("hybrid");
    assert("bm25"@.len() == 4 && "hybrid"@.len() == 6);
}

} // verus!
