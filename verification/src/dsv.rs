//! The files of a raster dump.
//!
//! A file is text in sections. A section starts behind a `[` with its name
//! and goes on to the next `[`. The section `DEFINITIONS` holds one
//! definition `key = value` per line, the section `VALUES` one integer per
//! line: the packed samples of the channel.
use crate::shape::{
    counts_valid, decodable, derivative, is_shape_of, sums_fit, try_decompress_shape, ShapeError,
};
use crate::text::{
    find, find_byte, lemma_find, parse_i64, parse_usize, read_i64, read_usize, trim, trimmed,
};
use vstd::prelude::*;
use vstd::slice::{slice_subrange, slice_to_vec};

verus! {

/// The name of the section of definitions: `DEFINITIONS`.
pub open spec fn definitions_tag() -> Seq<u8> {
    seq![0x44u8, 0x45u8, 0x46u8, 0x49u8, 0x4eu8, 0x49u8, 0x54u8, 0x49u8, 0x4fu8, 0x4eu8, 0x53u8]
}

/// The name of the section of samples: `VALUES`.
pub open spec fn values_tag() -> Seq<u8> {
    seq![0x56u8, 0x41u8, 0x4cu8, 0x55u8, 0x45u8, 0x53u8]
}

/// The key of the definition that holds the number of samples: `SAMPLES`.
pub open spec fn samples_key() -> Seq<u8> {
    seq![0x53u8, 0x41u8, 0x4du8, 0x50u8, 0x4cu8, 0x45u8, 0x53u8]
}

/// Where the piece of text that starts at `p` ends: at the next `[`, or at
/// the end of the text.
pub open spec fn piece_end(t: Seq<u8>, p: int) -> int {
    find(t, 0x5b, p)
}

/// The piece of text that starts at `p`.
pub open spec fn piece_at(t: Seq<u8>, p: int) -> Seq<u8> {
    t.subrange(p, piece_end(t, p))
}

/// The piece starts with the name `tag`.
pub open spec fn has_tag(piece: Seq<u8>, tag: Seq<u8>) -> bool {
    piece.len() >= tag.len() && piece.subrange(0, tag.len() as int) == tag
}

/// Where the first piece of text at or behind `p` starts that starts with the
/// name `tag`. One piece starts at `p`, and one behind every `[`.
pub open spec fn section_from(t: Seq<u8>, tag: Seq<u8>, p: int) -> Option<int>
    decreases t.len() - p,
{
    if p < 0 || p > t.len() {
        None
    } else if has_tag(piece_at(t, p), tag) {
        Some(p)
    } else if piece_end(t, p) >= t.len() {
        None
    } else {
        proof {
            lemma_find(t, 0x5b, p);
        }
        section_from(t, tag, piece_end(t, p) + 1)
    }
}

/// The first section of the text with the name `tag`, from its name on.
pub open spec fn section(t: Seq<u8>, tag: Seq<u8>) -> Option<Seq<u8>> {
    match section_from(t, tag, 0) {
        Some(p) => Some(piece_at(t, p)),
        None => None,
    }
}

/// Where the line that starts at `p` ends, its line feed and the carriage
/// return in front of the line feed not counted. A last line without a line
/// feed keeps its carriage return.
pub open spec fn line_end(s: Seq<u8>, p: int) -> int {
    let feed = find(s, 0x0a, p);
    if feed < s.len() && feed > p && s[feed - 1] == 0x0d {
        feed - 1
    } else {
        feed
    }
}

/// The line that starts at `p`.
pub open spec fn line_at(s: Seq<u8>, p: int) -> Seq<u8> {
    s.subrange(p, line_end(s, p))
}

/// Where the line behind the line at `p` starts.
pub open spec fn next_line(s: Seq<u8>, p: int) -> int {
    let feed = find(s, 0x0a, p);
    if feed < s.len() {
        feed + 1
    } else {
        feed
    }
}

/// Where the second line of the text starts.
pub open spec fn second_line(s: Seq<u8>) -> int {
    if s.len() > 0 {
        next_line(s, 0)
    } else {
        0
    }
}

/// The definitions in the lines from `p` on: empty lines are passed over,
/// and the first line without a `=` ends the definitions. Key and value are
/// what stands before and behind the first `=` of a line, without the white
/// space around it.
pub open spec fn definitions_from(s: Seq<u8>, p: int) -> Seq<(Seq<u8>, Seq<u8>)>
    decreases s.len() - p,
{
    if p < 0 || p >= s.len() {
        Seq::empty()
    } else {
        let line = line_at(s, p);
        let eq = find(line, 0x3d, 0);
        proof {
            lemma_find(s, 0x0a, p);
        }
        if line.len() == 0 {
            definitions_from(s, next_line(s, p))
        } else if eq >= line.len() {
            Seq::empty()
        } else {
            seq![(trimmed(line.subrange(0, eq)), trimmed(line.subrange(eq + 1, line.len() as int)))]
                + definitions_from(s, next_line(s, p))
        }
    }
}

/// The integers in the lines from `p` on: the first line that does not spell
/// an `i64` ends them.
pub open spec fn values_from(s: Seq<u8>, p: int) -> Seq<i64>
    decreases s.len() - p,
{
    if p < 0 || p >= s.len() {
        Seq::empty()
    } else {
        proof {
            lemma_find(s, 0x0a, p);
        }
        match parse_i64(line_at(s, p)) {
            Some(v) => seq![v] + values_from(s, next_line(s, p)),
            None => Seq::empty(),
        }
    }
}

/// The value of the last definition with the key `key`.
pub open spec fn lookup(pairs: Seq<(Seq<u8>, Seq<u8>)>, key: Seq<u8>) -> Option<Seq<u8>>
    decreases pairs.len(),
{
    if pairs.len() == 0 {
        None
    } else if pairs.last().0 == key {
        Some(pairs.last().1)
    } else {
        lookup(pairs.drop_last(), key)
    }
}

/// The definitions as plain byte sequences.
pub open spec fn pairs_of(v: Seq<(Vec<u8>, Vec<u8>)>) -> Seq<(Seq<u8>, Seq<u8>)> {
    Seq::new(v.len(), |i: int| (v[i].0@, v[i].1@))
}

/// Tells whether the two texts are equal.
fn same_bytes(a: &[u8], b: &[u8]) -> (same: bool)
    ensures
        same == (a@ == b@),
{
    if a.len() != b.len() {
        return false;
    }
    let n: usize = a.len();
    let mut i: usize = 0;
    while i < n
        invariant
            n == a@.len(),
            n == b@.len(),
            i <= n,
            forall|k: int| 0 <= k < i ==> a@[k] == b@[k],
        decreases n - i,
    {
        if a[i] != b[i] {
            return false;
        }
        i = i + 1;
    }
    assert(a@ =~= b@);
    true
}

/// Finds the first section with the name `tag`: where it starts and ends.
fn find_section(text: &[u8], tag: &[u8]) -> (result: Option<(usize, usize)>)
    ensures
        match result {
            Some((lo, hi)) => {
                &&& section_from(text@, tag@, 0) == Some(lo as int)
                &&& hi == piece_end(text@, lo as int)
                &&& lo <= hi <= text@.len()
            },
            None => section_from(text@, tag@, 0) is None,
        },
{
    let n: usize = text.len();
    let mut p: usize = 0;
    while p <= n
        invariant
            n == text@.len(),
            p <= n,
            section_from(text@, tag@, 0) == section_from(text@, tag@, p as int),
        decreases n - p,
    {
        let q: usize = find_byte(text, 0x5b, p);
        proof {
            lemma_find(text@, 0x5b, p as int);
        }
        if q - p >= tag.len() {
            let head = slice_subrange(text, p, p + tag.len());
            assert(head@ =~= piece_at(text@, p as int).subrange(0, tag@.len() as int));
            if same_bytes(head, tag) {
                return Some((p, q));
            }
        }
        if q >= n {
            return None;
        }
        p = q + 1;
    }
    None
}

/// Finds the line that starts at `p`: where it ends, and where the next line
/// starts.
fn find_line(s: &[u8], p: usize) -> (result: (usize, usize))
    requires
        p < s@.len(),
    ensures
        result.0 == line_end(s@, p as int),
        result.1 == next_line(s@, p as int),
        p <= result.0 <= s@.len(),
        p < result.1 <= s@.len(),
{
    let n: usize = s.len();
    let feed: usize = find_byte(s, 0x0a, p);
    proof {
        lemma_find(s@, 0x0a, p as int);
    }
    let end: usize = if feed < n && feed > p && s[feed - 1] == 0x0d {
        feed - 1
    } else {
        feed
    };
    let next: usize = if feed < n {
        feed + 1
    } else {
        feed
    };
    (end, next)
}

/// Reads the definitions of a section.
fn read_definitions(s: &[u8]) -> (out: Vec<(Vec<u8>, Vec<u8>)>)
    ensures
        pairs_of(out@) == definitions_from(s@, second_line(s@)),
{
    let n: usize = s.len();
    let mut out: Vec<(Vec<u8>, Vec<u8>)> = Vec::new();
    if n == 0 {
        assert(pairs_of(out@) =~= Seq::empty());
        return out;
    }
    let (_, start) = find_line(s, 0);
    let ghost all = definitions_from(s@, start as int);
    let mut p: usize = start;
    assert(pairs_of(out@) + all =~= all);
    while p < n
        invariant
            n == s@.len(),
            p <= n,
            all == definitions_from(s@, second_line(s@)),
            pairs_of(out@) + definitions_from(s@, p as int) == all,
        decreases n - p,
    {
        let (end, next) = find_line(s, p);
        if end > p {
            let line = slice_subrange(s, p, end);
            let eq: usize = find_byte(line, 0x3d, 0);
            proof {
                lemma_find(line@, 0x3d, 0);
            }
            if eq >= line.len() {
                assert(pairs_of(out@) + Seq::empty() =~= pairs_of(out@));
                return out;
            }
            let key = slice_to_vec(trim(slice_subrange(line, 0, eq)));
            let value = slice_to_vec(trim(slice_subrange(line, eq + 1, line.len())));
            let ghost before = pairs_of(out@);
            let ghost pair = (key@, value@);
            out.push((key, value));
            proof {
                assert(pairs_of(out@) =~= before.push(pair));
                assert(before.push(pair) + definitions_from(s@, next as int) =~= before + (seq![pair]
                    + definitions_from(s@, next as int)));
            }
        }
        p = next;
    }
    assert(pairs_of(out@) + Seq::empty() =~= pairs_of(out@));
    out
}

/// Reads the integers of a section.
fn read_values(s: &[u8]) -> (out: Vec<i64>)
    ensures
        out@ == values_from(s@, second_line(s@)),
{
    let n: usize = s.len();
    let mut out: Vec<i64> = Vec::new();
    if n == 0 {
        return out;
    }
    let (_, start) = find_line(s, 0);
    let ghost all = values_from(s@, start as int);
    let mut p: usize = start;
    assert(out@ + all =~= all);
    while p < n
        invariant
            n == s@.len(),
            p <= n,
            all == values_from(s@, second_line(s@)),
            out@ + values_from(s@, p as int) == all,
        decreases n - p,
    {
        let (end, next) = find_line(s, p);
        let line = slice_subrange(s, p, end);
        match read_i64(line) {
            Some(v) => {
                let ghost before = out@;
                out.push(v);
                assert(before.push(v) + values_from(s@, next as int) =~= before + (seq![v]
                    + values_from(s@, next as int)));
            },
            None => {
                assert(out@ + Seq::empty() =~= out@);
                return out;
            },
        }
        p = next;
    }
    assert(out@ + Seq::empty() =~= out@);
    out
}

/// Why a file does not hold a waveform.
#[derive(Debug, Clone, Copy, PartialEq, Eq, Structural)]
pub enum DsvError {
    /// No definition `SAMPLES` spells a number of samples.
    NoSampleCount,
    /// The packed samples do not decode.
    Stream(ShapeError),
}

/// One file of a raster dump: its definitions, as pairs of key and value in
/// the order of the file, and its packed samples.
#[derive(Debug)]
pub struct DsvFile {
    pub definitions: Vec<(Vec<u8>, Vec<u8>)>,
    pub values: Vec<i64>,
}

impl DsvFile {
    /// The definitions as plain byte sequences.
    pub open spec fn pairs(&self) -> Seq<(Seq<u8>, Seq<u8>)> {
        pairs_of(self.definitions@)
    }

    /// The number of samples that the file declares.
    pub open spec fn sample_count(&self) -> Option<usize> {
        match lookup(self.pairs(), samples_key()) {
            Some(value) => parse_usize(value),
            None => None,
        }
    }

    /// Reads a file from its text: the definitions and the integers from the
    /// second line on of the first section of either name. `None` where one
    /// of the two sections is missing.
    pub fn load(text: &[u8]) -> (result: Option<DsvFile>)
        ensures
            result is Some <==> section(text@, definitions_tag()) is Some && section(
                text@,
                values_tag(),
            ) is Some,
            result matches Some(file) ==> {
                &&& file.pairs() == definitions_from(
                    section(text@, definitions_tag())->0,
                    second_line(section(text@, definitions_tag())->0),
                )
                &&& file.values@ == values_from(
                    section(text@, values_tag())->0,
                    second_line(section(text@, values_tag())->0),
                )
            },
    {
        let definitions_name: Vec<u8> = vec![
            0x44u8,
            0x45u8,
            0x46u8,
            0x49u8,
            0x4eu8,
            0x49u8,
            0x54u8,
            0x49u8,
            0x4fu8,
            0x4eu8,
            0x53u8,
        ];
        let values_name: Vec<u8> = vec![0x56u8, 0x41u8, 0x4cu8, 0x55u8, 0x45u8, 0x53u8];
        assert(definitions_name@ =~= definitions_tag());
        assert(values_name@ =~= values_tag());
        let definitions = match find_section(text, definitions_name.as_slice()) {
            Some((lo, hi)) => read_definitions(slice_subrange(text, lo, hi)),
            None => {
                return None;
            },
        };
        let values = match find_section(text, values_name.as_slice()) {
            Some((lo, hi)) => read_values(slice_subrange(text, lo, hi)),
            None => {
                return None;
            },
        };
        Some(DsvFile { definitions, values })
    }

    /// The value of the last definition with the key `key`.
    pub fn get(&self, key: &[u8]) -> (result: Option<&Vec<u8>>)
        ensures
            match result {
                Some(value) => lookup(self.pairs(), key@) == Some(value@),
                None => lookup(self.pairs(), key@) is None,
            },
    {
        let mut i: usize = self.definitions.len();
        assert(self.pairs().take(i as int) =~= self.pairs());
        while i > 0
            invariant
                i <= self.definitions@.len(),
                lookup(self.pairs(), key@) == lookup(self.pairs().take(i as int), key@),
            decreases i,
        {
            let ghost front = self.pairs().take(i as int);
            assert(front.last() == self.pairs()[i - 1]);
            assert(front.drop_last() =~= self.pairs().take(i - 1));
            if same_bytes(self.definitions[i - 1].0.as_slice(), key) {
                return Some(&self.definitions[i - 1].1);
            }
            i = i - 1;
        }
        assert(self.pairs().take(0).len() == 0);
        None
    }

    /// The number of samples that the file declares, if it declares one.
    pub fn samples(&self) -> (result: Option<usize>)
        ensures
            result == self.sample_count(),
    {
        let key: Vec<u8> = vec![0x53u8, 0x41u8, 0x4du8, 0x50u8, 0x4cu8, 0x45u8, 0x53u8];
        assert(key@ =~= samples_key());
        match self.get(key.as_slice()) {
            Some(value) => read_usize(value.as_slice()),
            None => None,
        }
    }

    /// The waveform of the file: its packed samples decoded to the declared
    /// number of samples.
    pub fn shape(&self) -> (result: Result<Vec<i64>, DsvError>)
        ensures
            match result {
                Ok(shape) => {
                    &&& self.sample_count() matches Some(n) && decodable(self.values@, n as nat)
                        && shape@.len() == n
                    &&& is_shape_of(shape@, self.values@)
                },
                Err(DsvError::NoSampleCount) => self.sample_count() is None,
                Err(DsvError::Stream(ShapeError::NegativeRepeat)) => self.sample_count() is Some
                    && !counts_valid(self.values@),
                Err(DsvError::Stream(ShapeError::LengthMismatch)) => self.sample_count() matches Some(
                    n,
                ) && counts_valid(self.values@) && derivative(self.values@).len() != n,
                Err(DsvError::Stream(ShapeError::Overflow)) => self.sample_count() matches Some(n)
                    && counts_valid(self.values@) && derivative(self.values@).len() == n
                    && !sums_fit(derivative(self.values@)),
            },
    {
        match self.samples() {
            None => Err(DsvError::NoSampleCount),
            Some(n) => match try_decompress_shape(&self.values, n) {
                Ok(shape) => Ok(shape),
                Err(e) => Err(DsvError::Stream(e)),
            },
        }
    }
}

} // verus!
