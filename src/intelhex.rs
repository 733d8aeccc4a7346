//! Firmware images from Intel HEX records: data placed at absolute
//! addresses, later records over earlier ones, gaps shorter than a block
//! filled, longer gaps refused.

use vstd::prelude::*;
use crate::firmware::{BLOCK_SIZE, FILL_BYTE, FirmwareImage, ImageError, padded};

verus! {

/// One Intel HEX record.
#[derive(Clone, Debug)]
pub enum HexRecord {
    Data { offset: u16, value: Vec<u8> },
    EndOfFile,
    ExtendedSegmentAddress(u16),
    StartSegmentAddress { cs: u16, ip: u16 },
    ExtendedLinearAddress(u16),
    StartLinearAddress(u32),
}

pub enum HexRecordView {
    Data { offset: u16, value: Seq<u8> },
    EndOfFile,
    ExtendedSegmentAddress(u16),
    StartSegmentAddress { cs: u16, ip: u16 },
    ExtendedLinearAddress(u16),
    StartLinearAddress(u32),
}

impl View for HexRecord {
    type V = HexRecordView;

    open spec fn view(&self) -> HexRecordView {
        match self {
            HexRecord::Data { offset, value } => HexRecordView::Data { offset: *offset, value: value@ },
            HexRecord::EndOfFile => HexRecordView::EndOfFile,
            HexRecord::ExtendedSegmentAddress(s) => HexRecordView::ExtendedSegmentAddress(*s),
            HexRecord::StartSegmentAddress { cs, ip } => HexRecordView::StartSegmentAddress {
                cs: *cs,
                ip: *ip,
            },
            HexRecord::ExtendedLinearAddress(u) => HexRecordView::ExtendedLinearAddress(*u),
            HexRecord::StartLinearAddress(a) => HexRecordView::StartLinearAddress(*a),
        }
    }
}

/// The record that one line of Intel HEX text holds, if it is a valid record.
pub uninterp spec fn record_of(line: Seq<char>) -> Option<HexRecordView>;

/// Relies on `ihex::Record::from_record_string`: the record of one line, or
/// an error; the result depends on the line alone.
#[verifier::external_body]
fn parse_record(line: &str) -> (r: Option<HexRecord>)
    ensures
        match r {
            Some(rec) => record_of(line@) == Some(rec@),
            None => record_of(line@) is None,
        },
{
    match ihex::Record::from_record_string(line) {
        Ok(ihex::Record::Data { offset, value }) => Some(HexRecord::Data { offset, value }),
        Ok(ihex::Record::EndOfFile) => Some(HexRecord::EndOfFile),
        Ok(ihex::Record::ExtendedSegmentAddress(s)) => Some(HexRecord::ExtendedSegmentAddress(s)),
        Ok(ihex::Record::StartSegmentAddress { cs, ip }) => Some(HexRecord::StartSegmentAddress { cs, ip }),
        Ok(ihex::Record::ExtendedLinearAddress(u)) => Some(HexRecord::ExtendedLinearAddress(u)),
        Ok(ihex::Record::StartLinearAddress(a)) => Some(HexRecord::StartLinearAddress(a)),
        Err(_) => None,
    }
}

/// Bytes placed at an absolute address.
pub struct Chunk {
    pub address: nat,
    pub data: Seq<u8>,
}

/// The data of `recs` at absolute addresses, `base` being the address that
/// data offsets count from; nothing after the end-of-file record counts.
pub open spec fn chunks_from(recs: Seq<HexRecordView>, base: nat) -> Seq<Chunk>
    decreases recs.len(),
{
    if recs.len() == 0 {
        Seq::empty()
    } else {
        let rest = recs.drop_first();
        match recs[0] {
            HexRecordView::Data { offset, value } => seq![
                Chunk { address: (base + offset) as nat, data: value },
            ] + chunks_from(rest, base),
            HexRecordView::EndOfFile => Seq::empty(),
            HexRecordView::ExtendedSegmentAddress(s) => chunks_from(rest, s as nat * 16),
            HexRecordView::ExtendedLinearAddress(u) => chunks_from(rest, u as nat * 65536),
            _ => chunks_from(rest, base),
        }
    }
}

pub open spec fn chunks_of(recs: Seq<HexRecordView>) -> Seq<Chunk> {
    chunks_from(recs, 0)
}

/// The byte at address `a`, from the last chunk that covers it.
pub open spec fn byte_at(cs: Seq<Chunk>, a: nat) -> Option<u8>
    decreases cs.len(),
{
    if cs.len() == 0 {
        None
    } else {
        let c = cs.last();
        if c.address <= a < c.address + c.data.len() {
            Some(c.data[a - c.address])
        } else {
            byte_at(cs.drop_last(), a)
        }
    }
}

/// The first address past every chunk.
pub open spec fn end_of(cs: Seq<Chunk>) -> nat
    decreases cs.len(),
{
    if cs.len() == 0 {
        0
    } else {
        let e = cs.last().address + cs.last().data.len();
        let r = end_of(cs.drop_last());
        if e > r {
            e
        } else {
            r
        }
    }
}

/// The bytes from address zero to the end, gaps filled.
pub open spec fn image_bytes(cs: Seq<Chunk>) -> Seq<u8> {
    Seq::new(
        end_of(cs),
        |a: int|
            match byte_at(cs, a as nat) {
                Some(b) => b,
                None => FILL_BYTE,
            },
    )
}

/// Some run of a whole block of addresses below the end is covered by no chunk.
pub open spec fn has_large_gap(cs: Seq<Chunk>) -> bool {
    exists|j: nat| j + BLOCK_SIZE <= end_of(cs) && #[trigger] uncovered_block(cs, j)
}

/// No chunk covers any of the block of addresses from `j`.
pub open spec fn uncovered_block(cs: Seq<Chunk>, j: nat) -> bool {
    forall|k: nat| j <= k < j + BLOCK_SIZE ==> (#[trigger] byte_at(cs, k)) is None
}

#[derive(Clone, Copy, Debug, PartialEq, Eq, Structural)]
pub enum LoadError {
    /// A line that is no valid record.
    BadRecord,
    /// No data at all.
    Empty,
    /// Data beyond the largest image.
    TooLarge,
    /// A block or more of addresses with no data.
    Gap,
}


/// Largest image, in bytes.
pub const IMAGE_LIMIT: u64 = 65536;

/// The bytes of the image that `cs` describes, or why there is none.
pub open spec fn spec_image_data(cs: Seq<Chunk>) -> Result<Seq<u8>, LoadError> {
    if end_of(cs) == 0 {
        Err(LoadError::Empty)
    } else if end_of(cs) > IMAGE_LIMIT {
        Err(LoadError::TooLarge)
    } else if has_large_gap(cs) {
        Err(LoadError::Gap)
    } else {
        Ok(padded(image_bytes(cs)))
    }
}

/// The records of the non-empty lines, or `None` if one of them is no
/// valid record.
pub open spec fn records_of(lines: Seq<Seq<char>>) -> Option<Seq<HexRecordView>>
    decreases lines.len(),
{
    if lines.len() == 0 {
        Some(Seq::empty())
    } else {
        match records_of(lines.drop_last()) {
            None => None,
            Some(rs) => if lines.last().len() == 0 {
                Some(rs)
            } else {
                match record_of(lines.last()) {
                    Some(r) => Some(rs.push(r)),
                    None => None,
                }
            },
        }
    }
}

struct DataChunk {
    address: u64,
    data: Vec<u8>,
}

impl View for DataChunk {
    type V = Chunk;

    closed spec fn view(&self) -> Chunk {
        Chunk { address: self.address as nat, data: self.data@ }
    }
}

spec fn chunks_view(v: Seq<DataChunk>) -> Seq<Chunk> {
    v.map_values(|c: DataChunk| c@)
}

fn collect_chunks(recs: &Vec<HexRecord>) -> (r: Vec<DataChunk>)
    ensures
        chunks_view(r@) == chunks_of(recs@.map_values(|h: HexRecord| h@)),
{
    let ghost rv = recs@.map_values(|h: HexRecord| h@);
    let mut out: Vec<DataChunk> = Vec::new();
    let mut base: u64 = 0;
    let mut i: usize = 0;
    assert(rv.skip(0) =~= rv);
    assert(chunks_view(out@) + chunks_from(rv.skip(0), 0) =~= chunks_of(rv));
    while i < recs.len()
        invariant
            rv == recs@.map_values(|h: HexRecord| h@),
            i <= recs@.len(),
            base <= 65535 * 65536,
            chunks_of(rv) == chunks_view(out@) + chunks_from(rv.skip(i as int), base as nat),
        decreases recs.len() - i,
    {
        let ghost rest = rv.skip(i as int);
        assert(rest.drop_first() =~= rv.skip(i + 1));
        assert(rest[0] == recs@[i as int]@);
        match &recs[i] {
            HexRecord::Data { offset, value } => {
                let ghost before = chunks_view(out@);
                let c = DataChunk { address: base + *offset as u64, data: value.clone() };
                assert(c.data@ =~= value@);
                out.push(c);
                assert(chunks_view(out@) =~= before + seq![c@]);
                assert(chunks_view(out@) + chunks_from(rv.skip(i + 1), base as nat) =~= before + (
                seq![c@] + chunks_from(rv.skip(i + 1), base as nat)));
            },
            HexRecord::EndOfFile => {
                assert(chunks_view(out@) + Seq::<Chunk>::empty() =~= chunks_view(out@));
                return out;
            },
            HexRecord::ExtendedSegmentAddress(sg) => {
                base = *sg as u64 * 16;
            },
            HexRecord::ExtendedLinearAddress(u) => {
                base = *u as u64 * 65536;
            },
            _ => {},
        }
        i = i + 1;
    }
    assert(rv.skip(i as int) =~= Seq::<HexRecordView>::empty());
    assert(chunks_view(out@) + Seq::<Chunk>::empty() =~= chunks_view(out@));
    out
}

proof fn lemma_end_bounds(cs: Seq<Chunk>)
    ensures
        forall|i: int| 0 <= i < cs.len() ==> (#[trigger] cs[i]).address + cs[i].data.len() <= end_of(cs),
        forall|k: int| 0 <= k <= cs.len() ==> end_of(#[trigger] cs.take(k)) <= end_of(cs),
    decreases cs.len(),
{
    if cs.len() > 0 {
        lemma_end_bounds(cs.drop_last());
        assert forall|i: int| 0 <= i < cs.len() - 1 implies #[trigger] cs[i] == cs.drop_last()[i] by {}
        assert forall|k: int| 0 <= k <= cs.len() implies end_of(#[trigger] cs.take(k)) <= end_of(cs) by {
            if k < cs.len() {
                assert(cs.take(k) =~= cs.drop_last().take(k));
            } else {
                assert(cs.take(k) =~= cs);
            }
        }
    }
}

/// The end of the chunks, or `None` if it lies beyond `IMAGE_LIMIT`.
fn chunks_end(cs: &Vec<DataChunk>) -> (r: Option<u64>)
    ensures
        match r {
            Some(e) => e == end_of(chunks_view(cs@)) && e <= IMAGE_LIMIT,
            None => end_of(chunks_view(cs@)) > IMAGE_LIMIT,
        },
{
    let ghost cv = chunks_view(cs@);
    proof {
        lemma_end_bounds(cv);
    }
    let mut e: u64 = 0;
    let mut i: usize = 0;
    assert(cv.take(0) =~= Seq::<Chunk>::empty());
    while i < cs.len()
        invariant
            cv == chunks_view(cs@),
            i <= cs@.len(),
            e == end_of(cv.take(i as int)),
            e <= IMAGE_LIMIT,
            forall|i: int| 0 <= i < cv.len() ==> (#[trigger] cv[i]).address + cv[i].data.len() <= end_of(cv),
        decreases cs.len() - i,
    {
        let c = &cs[i];
        assert(cv[i as int] == c@);
        if c.address > IMAGE_LIMIT || c.data.len() as u64 > IMAGE_LIMIT {
            return None;
        }
        let ce = c.address + c.data.len() as u64;
        if ce > IMAGE_LIMIT {
            return None;
        }
        assert(cv.take(i + 1).drop_last() =~= cv.take(i as int));
        if ce > e {
            e = ce;
        }
        i = i + 1;
    }
    assert(cv.take(i as int) =~= cv);
    Some(e)
}


pub open spec fn fill_or(o: Option<u8>) -> u8 {
    match o {
        Some(b) => b,
        None => FILL_BYTE,
    }
}

/// The image bytes below `end`, and which of them some chunk covers.
fn place_chunks(cs: &Vec<DataChunk>, end: u64) -> (r: (Vec<u8>, Vec<bool>))
    requires
        end == end_of(chunks_view(cs@)),
        end <= IMAGE_LIMIT,
    ensures
        r.0@.len() == end,
        r.1@.len() == end,
        forall|a: int| 0 <= a < end ==> #[trigger] r.0@[a] == fill_or(byte_at(chunks_view(cs@), a as nat)),
        forall|a: int| 0 <= a < end ==> #[trigger] r.1@[a] == (byte_at(chunks_view(cs@), a as nat) is Some),
{
    let ghost cv = chunks_view(cs@);
    proof {
        lemma_end_bounds(cv);
    }
    let n = end as usize;
    let mut buf: Vec<u8> = Vec::new();
    let mut cov: Vec<bool> = Vec::new();
    let mut a: usize = 0;
    while a < n
        invariant
            a <= n,
            buf@.len() == a,
            cov@.len() == a,
            forall|k: int| 0 <= k < a ==> #[trigger] buf@[k] == FILL_BYTE,
            forall|k: int| 0 <= k < a ==> !(#[trigger] cov@[k]),
        decreases n - a,
    {
        buf.push(FILL_BYTE);
        cov.push(false);
        a = a + 1;
    }
    let mut i: usize = 0;
    assert(cv.take(0) =~= Seq::<Chunk>::empty());
    while i < cs.len()
        invariant
            cv == chunks_view(cs@),
            n == end,
            end == end_of(cv),
            i <= cs@.len(),
            buf@.len() == n,
            cov@.len() == n,
            forall|i: int| 0 <= i < cv.len() ==> (#[trigger] cv[i]).address + cv[i].data.len() <= end_of(cv),
            forall|k: int| 0 <= k < n ==> #[trigger] buf@[k] == fill_or(byte_at(cv.take(i as int), k as nat)),
            forall|k: int| 0 <= k < n ==> #[trigger] cov@[k] == (byte_at(cv.take(i as int), k as nat) is Some),
        decreases cs.len() - i,
    {
        let c = &cs[i];
        assert(cv[i as int] == c@);
        let base = c.address as usize;
        let mut j: usize = 0;
        while j < c.data.len()
            invariant
                cv == chunks_view(cs@),
                i < cs@.len(),
                c == cs@[i as int],
                cv[i as int] == c@,
                base == c.address,
                base + c.data@.len() <= n,
                j <= c.data@.len(),
                buf@.len() == n,
                cov@.len() == n,
                forall|k: int|
                    0 <= k < n ==> #[trigger] buf@[k] == if base <= k < base + j {
                        c.data@[k - base]
                    } else {
                        fill_or(byte_at(cv.take(i as int), k as nat))
                    },
                forall|k: int|
                    0 <= k < n ==> #[trigger] cov@[k] == if base <= k < base + j {
                        true
                    } else {
                        byte_at(cv.take(i as int), k as nat) is Some
                    },
            decreases c.data.len() - j,
        {
            buf.set(base + j, c.data[j]);
            cov.set(base + j, true);
            j = j + 1;
        }
        proof {
            let t = cv.take(i + 1);
            assert(t.drop_last() =~= cv.take(i as int));
            assert(t.last() == c@);
        }
        i = i + 1;
    }
    assert(cv.take(i as int) =~= cv);
    (buf, cov)
}

/// Whether a whole block of addresses below the end is uncovered.
fn find_gap(cov: &Vec<bool>, cs: Ghost<Seq<Chunk>>) -> (r: bool)
    requires
        cov@.len() == end_of(cs@),
        forall|a: int| 0 <= a < cov@.len() ==> #[trigger] cov@[a] == (byte_at(cs@, a as nat) is Some),
    ensures
        r == has_large_gap(cs@),
{
    let n = cov.len();
    let mut run: usize = 0;
    let mut i: usize = 0;
    while i < n
        invariant
            n == cov@.len(),
            n == end_of(cs@),
            forall|a: int| 0 <= a < cov@.len() ==> #[trigger] cov@[a] == (byte_at(cs@, a as nat) is Some),
            i <= n,
            run <= i,
            run < BLOCK_SIZE,
            forall|k: int| i - run <= k < i ==> !(#[trigger] cov@[k]),
            run < i ==> cov@[i - run - 1],
            forall|j: nat| j + BLOCK_SIZE <= i ==> !(#[trigger] uncovered_block(cs@, j)),
        decreases n - i,
    {
        if cov[i] {
            run = 0;
            proof {
                assert forall|j: nat| j + BLOCK_SIZE <= i + 1 implies !(#[trigger] uncovered_block(cs@, j)) by {
                    if j + BLOCK_SIZE == i + 1 {
                        assert(byte_at(cs@, i as nat) is Some);
                    }
                }
            }
        } else {
            run = run + 1;
            if run == BLOCK_SIZE {
                proof {
                    let j = (i + 1 - BLOCK_SIZE) as nat;
                    assert forall|k: nat| j <= k < j + BLOCK_SIZE implies (#[trigger] byte_at(cs@, k)) is None by {
                        assert(!cov@[k as int]);
                    }
                    assert(uncovered_block(cs@, j));
                }
                return true;
            }
            proof {
                assert forall|j: nat| j + BLOCK_SIZE <= i + 1 implies !(#[trigger] uncovered_block(cs@, j)) by {
                    if j + BLOCK_SIZE == i + 1 {
                        let p = (i - run) as nat;
                        assert(cov@[p as int]);
                        assert(byte_at(cs@, p) is Some);
                    }
                }
            }
        }
        i = i + 1;
    }
    proof {
        if has_large_gap(cs@) {
            let j = choose|j: nat| j + BLOCK_SIZE <= end_of(cs@) && #[trigger] uncovered_block(cs@, j);
            assert(!uncovered_block(cs@, j));
        }
    }
    false
}

/// The image of type `type_id` and version `version` that `recs` describe.
pub fn image_from_records(type_id: u16, version: u16, recs: &Vec<HexRecord>) -> (r: Result<
    FirmwareImage,
    LoadError,
>)
    ensures
        match r {
            Ok(img) => img.wf() && img@.type_id == type_id && img@.version == version
                && spec_image_data(chunks_of(recs@.map_values(|h: HexRecord| h@))) == Ok::<
                Seq<u8>,
                LoadError,
            >(img@.data),
            Err(e) => spec_image_data(chunks_of(recs@.map_values(|h: HexRecord| h@))) == Err::<
                Seq<u8>,
                LoadError,
            >(e),
        },
{
    let cs = collect_chunks(recs);
    let ghost cv = chunks_view(cs@);
    let end = match chunks_end(&cs) {
        Some(e) => e,
        None => return Err(LoadError::TooLarge),
    };
    if end == 0 {
        return Err(LoadError::Empty);
    }
    let (buf, cov) = place_chunks(&cs, end);
    if find_gap(&cov, Ghost(cv)) {
        return Err(LoadError::Gap);
    }
    assert(buf@ =~= image_bytes(cv));
    match FirmwareImage::new(type_id, version, buf) {
        Ok(img) => Ok(img),
        Err(ImageError::Empty) => Err(LoadError::Empty),
        Err(ImageError::TooLarge) => Err(LoadError::TooLarge),
    }
}

/// The image of type `type_id` and version `version` that the lines of
/// Intel HEX text describe; empty lines are skipped.
pub fn load_image(type_id: u16, version: u16, lines: &Vec<String>) -> (r: Result<
    FirmwareImage,
    LoadError,
>)
    ensures
        match records_of(lines@.map_values(|l: String| l@)) {
            None => r == Err::<FirmwareImage, LoadError>(LoadError::BadRecord),
            Some(recs) => match r {
                Ok(img) => img.wf() && img@.type_id == type_id && img@.version == version
                    && spec_image_data(chunks_of(recs)) == Ok::<Seq<u8>, LoadError>(img@.data),
                Err(e) => spec_image_data(chunks_of(recs)) == Err::<Seq<u8>, LoadError>(e),
            },
        },
{
    let ghost lv = lines@.map_values(|l: String| l@);
    let mut recs: Vec<HexRecord> = Vec::new();
    let mut i: usize = 0;
    assert(lv.take(0) =~= Seq::<Seq<char>>::empty());
    while i < lines.len()
        invariant
            lv == lines@.map_values(|l: String| l@),
            i <= lines@.len(),
            records_of(lv.take(i as int)) == Some(recs@.map_values(|h: HexRecord| h@)),
        decreases lines.len() - i,
    {
        let line = lines[i].as_str();
        proof {
            assert(lv.take(i + 1).drop_last() =~= lv.take(i as int));
            assert(lv.take(i + 1).last() == lines@[i as int]@);
        }
        if !line.is_empty() {
            match parse_record(line) {
                Some(rec) => {
                    let ghost before = recs@.map_values(|h: HexRecord| h@);
                    let ghost rv = rec@;
                    recs.push(rec);
                    assert(recs@.map_values(|h: HexRecord| h@) =~= before.push(rv));
                },
                None => {
                    proof {
                        lemma_records_prefix_none(lv, (i + 1) as int);
                    }
                    return Err(LoadError::BadRecord);
                },
            }
        }
        i = i + 1;
    }
    assert(lv.take(i as int) =~= lv);
    image_from_records(type_id, version, &recs)
}

proof fn lemma_records_prefix_none(lines: Seq<Seq<char>>, k: int)
    requires
        0 <= k <= lines.len(),
        records_of(lines.take(k)) is None,
    ensures
        records_of(lines) is None,
    decreases lines.len() - k,
{
    if k < lines.len() {
        assert(lines.take(k + 1).drop_last() =~= lines.take(k));
        lemma_records_prefix_none(lines, k + 1);
    } else {
        assert(lines.take(k) =~= lines);
    }
}

} // verus!
