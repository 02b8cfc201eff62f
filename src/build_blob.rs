use vstd::prelude::*;

use crate::link_script_parser::{
    digit_value, digits_value, locate_region, terms_at, lemma_line_values_fit, lemma_scan_stops_at_first, fits_i64, hex_end, is_hex_digit, number_at,
    scan_from, Line, LinkParseErrorKind, Parsed,
};
use crate::blob_info::{BlobInfo, BlobInfoFile, ProbeInfo};
use vstd::string::StringSliceAdditionalSpecFns;

verus! {

// ---------------------------------------------------------------------------
// Errors
// ---------------------------------------------------------------------------

#[derive(Clone, Copy, Debug, PartialEq, Eq, Structural)]
pub enum BuildError {
    /// The linker script could not be read as needed.
    LinkScript(LinkParseErrorKind),
    /// The blob configuration names no blob.
    NoBlobsDefined,
    /// A size, offset or address does not fit its field.
    IntegerOverflow,
    /// More space is to be reserved than the region holds.
    ReservedSpaceExceedsRegion,
}

// ---------------------------------------------------------------------------
// Text
// ---------------------------------------------------------------------------

/// Lower-case hexadecimal digit for `d < 16`.
pub open spec fn hex_char(d: nat) -> u8 {
    if d < 10 {
        (48 + d) as u8
    } else {
        (87 + d) as u8
    }
}

/// `n` in lower-case hexadecimal, without leading zeros.
pub open spec fn hex_text(n: nat) -> Seq<u8>
    decreases n,
{
    if n < 16 {
        seq![hex_char(n)]
    } else {
        hex_text(n / 16) + seq![hex_char(n % 16)]
    }
}

/// `n` in decimal, without leading zeros.
pub open spec fn dec_text(n: nat) -> Seq<u8>
    decreases n,
{
    if n < 10 {
        seq![(48 + n) as u8]
    } else {
        dec_text(n / 10) + seq![(48 + n % 10) as u8]
    }
}

fn push_hex(out: &mut Vec<u8>, n: u64)
    ensures
        final(out)@ == old(out)@ + hex_text(n as nat),
    decreases n,
{
    if n >= 16 {
        push_hex(out, n / 16);
    }
    let d: u64 = n % 16;
    let c: u8 = if d < 10 {
        (48 + d) as u8
    } else {
        (87 + d) as u8
    };
    out.push(c);
}

fn push_dec(out: &mut Vec<u8>, n: u64)
    ensures
        final(out)@ == old(out)@ + dec_text(n as nat),
    decreases n,
{
    if n >= 10 {
        push_dec(out, n / 10);
    }
    out.push((48 + n % 10) as u8);
}

fn push_bytes(out: &mut Vec<u8>, b: &[u8])
    ensures
        final(out)@ == old(out)@ + b@,
{
    let ghost start = out@;
    let mut k: usize = 0;
    while k < b.len()
        invariant
            0 <= k <= b@.len(),
            out@ == start + b@.subrange(0, k as int),
        decreases b@.len() - k,
    {
        out.push(b[k]);
        assert(start + b@.subrange(0, k + 1) =~= start + b@.subrange(0, k as int) + seq![b@[k as int]]);
        k = k + 1;
    }
    assert(b@.subrange(0, b@.len() as int) =~= b@);
}

fn push_str(out: &mut Vec<u8>, s: &str)
    ensures
        final(out)@ == old(out)@ + s.spec_bytes(),
{
    push_bytes(out, s.as_bytes());
}


// ---------------------------------------------------------------------------
// Blob layout
// ---------------------------------------------------------------------------

/// How one blob is configured.
pub struct BlobParams {
    pub filename: String,
    /// The blob is part of the executable; overrides the two below.
    pub inline: Option<bool>,
    /// The blob is part of the executable in dev builds.
    pub inline_dev: Option<bool>,
    /// The blob is part of the executable in release builds.
    pub inline_release: Option<bool>,
}

/// A configured blob whose file has been read: its size and SHA-1 digest.
pub struct ScannedBlob {
    pub name: String,
    pub params: BlobParams,
    pub size: u64,
    pub checksum: [u8; 20],
}

/// A blob with its place: `start` is its offset in the reserved space, which
/// counts only for a blob that is not inline.
pub struct Blob {
    pub name: String,
    pub start: u32,
    pub size: u32,
    pub checksum: [u8; 20],
    pub filename: String,
    pub inline: bool,
}

/// An explicit flag wins; else release builds embed and dev builds do not,
/// unless the profile's own flag says otherwise.
pub open spec fn inline_of(p: BlobParams, release: bool) -> bool {
    match p.inline {
        Some(b) => b,
        None => if release {
            match p.inline_release {
                Some(b) => b,
                None => true,
            }
        } else {
            match p.inline_dev {
                Some(b) => b,
                None => false,
            }
        },
    }
}

/// Bytes that blob `b` takes in the reserved space.
pub open spec fn reserved_by(b: ScannedBlob, release: bool) -> int {
    if inline_of(b.params, release) {
        0
    } else {
        b.size as int
    }
}

/// Bytes reserved by the first `k` blobs: the offset of blob `k`.
pub open spec fn reserved_upto(blobs: Seq<ScannedBlob>, release: bool, k: int) -> int
    decreases k,
{
    if k <= 0 {
        0
    } else {
        reserved_upto(blobs, release, k - 1) + reserved_by(blobs[k - 1], release)
    }
}

/// Every size and the whole reservation fit in 32 bits.
pub open spec fn layout_fits(blobs: Seq<ScannedBlob>, release: bool) -> bool {
    (forall|k: int| 0 <= k < blobs.len() ==> #[trigger] blobs[k].size <= u32::MAX)
        && reserved_upto(blobs, release, blobs.len() as int) <= u32::MAX
}

/// What a placed blob is, in plain values.
pub struct BlobView {
    pub name: Seq<char>,
    pub filename: Seq<char>,
    pub start: int,
    pub size: int,
    pub checksum: Seq<u8>,
    pub inline: bool,
}

impl View for Blob {
    type V = BlobView;

    open spec fn view(&self) -> BlobView {
        BlobView {
            name: self.name@,
            filename: self.filename@,
            start: self.start as int,
            size: self.size as int,
            checksum: self.checksum@,
            inline: self.inline,
        }
    }
}

/// Blob `k` of `blobs` as the layout places it.
pub open spec fn placed_view(blobs: Seq<ScannedBlob>, release: bool, k: int) -> BlobView {
    BlobView {
        name: blobs[k].name@,
        filename: blobs[k].params.filename@,
        start: reserved_upto(blobs, release, k),
        size: blobs[k].size as int,
        checksum: blobs[k].checksum@,
        inline: inline_of(blobs[k].params, release),
    }
}

/// The whole layout of `blobs`.
pub open spec fn layout_view(blobs: Seq<ScannedBlob>, release: bool) -> Seq<BlobView> {
    Seq::new(blobs.len(), |k: int| placed_view(blobs, release, k))
}

/// No two blobs share a name: the name is the blob's key.
pub open spec fn names_distinct(blobs: Seq<ScannedBlob>) -> bool {
    forall|j: int, k: int| 0 <= j < k < blobs.len() ==> #[trigger] blobs[j].name@ != #[trigger] blobs[k].name@
}

/// Blob `b` is `s` placed at offset `start`.
pub open spec fn placed(b: Blob, s: ScannedBlob, release: bool, start: int) -> bool {
    b.name@ == s.name@ && b.filename@ == s.params.filename@ && b.size == s.size && b.checksum
        == s.checksum && b.inline == inline_of(s.params, release) && b.start == start
}

/// Offsets grow with the index: what the blobs before `j` reserve is at
/// least what those before `k` reserve.
pub proof fn lemma_reserved_grows(blobs: Seq<ScannedBlob>, release: bool, k: int, j: int)
    requires
        0 <= k <= j <= blobs.len(),
    ensures
        reserved_upto(blobs, release, k) <= reserved_upto(blobs, release, j),
    decreases j - k,
{
    if k < j {
        lemma_reserved_grows(blobs, release, k, j - 1);
    }
}

/// The views of `blobs`, in order.
pub open spec fn views(blobs: Seq<Blob>) -> Seq<BlobView> {
    blobs.map_values(|b: Blob| b@)
}

/// The loaded blobs lie one after the other: the next loaded blob after
/// blob `k` starts right where blob `k` ends. With the first offset 0 and
/// the total the sum of all loaded sizes, the reservation has no gap and no
/// overlap.
pub proof fn lemma_layout_packed(blobs: Seq<ScannedBlob>, release: bool, k: int, j: int)
    requires
        0 <= k < j <= blobs.len(),
        !inline_of(blobs[k].params, release),
        forall|m: int| k < m < j ==> inline_of(#[trigger] blobs[m].params, release),
    ensures
        reserved_upto(blobs, release, 0) == 0,
        reserved_upto(blobs, release, j) == reserved_upto(blobs, release, k) + blobs[k].size,
    decreases j - k,
{
    if j > k + 1 {
        lemma_layout_packed(blobs, release, k, j - 1);
        assert(inline_of(blobs[j - 1].params, release));
    }
}

/// Sum of the sizes of `bs`.
pub open spec fn total_size(bs: Seq<BlobView>) -> int
    decreases bs.len(),
{
    if bs.len() == 0 {
        0
    } else {
        total_size(bs.drop_last()) + bs.last().size
    }
}

/// Taken in order, the loaded blobs among the first `k` lie back to back:
/// the first at offset 0, each next one where the one before ends, and
/// what they reserve together is the sum of their sizes.
pub proof fn lemma_loaded_back_to_back(blobs: Seq<ScannedBlob>, release: bool, k: int)
    requires
        0 <= k <= blobs.len(),
    ensures
        ({
            let l = loaded_upto(layout_view(blobs, release), k);
            &&& reserved_upto(blobs, release, k) == total_size(l)
            &&& l.len() > 0 ==> l[0].start == 0
            &&& l.len() > 0 ==> l.last().start + l.last().size == total_size(l)
            &&& forall|j: int| 0 <= j < l.len() - 1 ==> #[trigger] l[j + 1].start == l[j].start + l[j].size
        }),
    decreases k,
{
    if k > 0 {
        lemma_loaded_back_to_back(blobs, release, k - 1);
        let lv = layout_view(blobs, release);
        let l = loaded_upto(lv, k - 1);
        assert(lv[k - 1] == placed_view(blobs, release, k - 1));
        if !lv[k - 1].inline {
            let l2 = l.push(lv[k - 1]);
            assert(l2.drop_last() =~= l);
            assert forall|j: int| 0 <= j < l2.len() - 1 implies #[trigger] l2[j + 1].start == l2[j].start
                + l2[j].size by {
                if j + 1 < l.len() {
                    assert(l2[j + 1] == l[j + 1] && l2[j] == l[j]);
                } else {
                    assert(l2[j] == l.last());
                }
            }
            if l.len() > 0 {
                assert(l2[0] == l[0]);
            }
        }
    }
}

/// Two loaded blobs never overlap: the later one starts at or after the end
/// of the earlier one.
pub proof fn lemma_layout_disjoint(blobs: Seq<ScannedBlob>, release: bool, k: int, j: int)
    requires
        0 <= k < j < blobs.len(),
        !inline_of(blobs[k].params, release),
    ensures
        reserved_upto(blobs, release, k) + blobs[k].size <= reserved_upto(blobs, release, j),
{
    lemma_reserved_grows(blobs, release, k + 1, j);
}

fn inline_exec(p: &BlobParams, release: bool) -> (r: bool)
    ensures
        r == inline_of(*p, release),
{
    match p.inline {
        Some(b) => b,
        None => if release {
            match p.inline_release {
                Some(b) => b,
                None => true,
            }
        } else {
            match p.inline_dev {
                Some(b) => b,
                None => false,
            }
        },
    }
}

/// Resolves each blob's inline flag and packs the blobs that are not inline
/// one after the other from offset 0, in the given order. Returns the blobs
/// and the total reservation.
pub fn layout_blobs(scanned: &Vec<ScannedBlob>, release: bool) -> (r: Result<(Vec<Blob>, u32), BuildError>)
    requires
        names_distinct(scanned@),
    ensures
        scanned@.len() == 0 ==> r == Err::<(Vec<Blob>, u32), _>(BuildError::NoBlobsDefined),
        scanned@.len() > 0 ==> (r is Ok <==> layout_fits(scanned@, release)),
        scanned@.len() > 0 && !layout_fits(scanned@, release) ==> r == Err::<(Vec<Blob>, u32), _>(
            BuildError::IntegerOverflow,
        ),
        r is Ok ==> {
            let (blobs, total) = r->Ok_0;
            &&& blobs@.len() == scanned@.len()
            &&& total == reserved_upto(scanned@, release, scanned@.len() as int)
            &&& total == total_size(loaded_upto(layout_view(scanned@, release), scanned@.len() as int))
            &&& forall|k: int|
                0 <= k < blobs@.len() ==> placed(
                    #[trigger] blobs@[k],
                    scanned@[k],
                    release,
                    reserved_upto(scanned@, release, k),
                )
            &&& views(blobs@) == layout_view(scanned@, release)
        },
{
    if scanned.len() == 0 {
        return Err(BuildError::NoBlobsDefined);
    }
    let mut blobs: Vec<Blob> = Vec::new();
    let mut total: u64 = 0;
    let mut k: usize = 0;
    while k < scanned.len()
        invariant
            0 <= k <= scanned@.len(),
            total == reserved_upto(scanned@, release, k as int),
            total <= u32::MAX,
            blobs@.len() == k,
            forall|j: int| 0 <= j < k ==> #[trigger] scanned@[j].size <= u32::MAX,
            forall|j: int|
                0 <= j < k ==> placed(
                    #[trigger] blobs@[j],
                    scanned@[j],
                    release,
                    reserved_upto(scanned@, release, j),
                ),
        decreases scanned@.len() - k,
    {
        let s = &scanned[k];
        if s.size > 0xffff_ffffu64 {
            return Err(BuildError::IntegerOverflow);
        }
        let inline = inline_exec(&s.params, release);
        let next: u64 = if inline {
            total
        } else {
            total + s.size
        };
        if next > 0xffff_ffffu64 {
            proof {
                lemma_reserved_grows(scanned@, release, k as int + 1, scanned@.len() as int);
            }
            return Err(BuildError::IntegerOverflow);
        }
        blobs.push(
            Blob {
                name: s.name.clone(),
                start: total as u32,
                size: s.size as u32,
                checksum: s.checksum,
                filename: s.params.filename.clone(),
                inline,
            },
        );
        total = next;
        k = k + 1;
    }
    assert(views(blobs@) =~= layout_view(scanned@, release));
    proof {
        lemma_loaded_back_to_back(scanned@, release, scanned@.len() as int);
    }
    Ok((blobs, total as u32))
}


// ---------------------------------------------------------------------------
// Linker script
// ---------------------------------------------------------------------------

pub const ORIGIN_FIELD: &'static str = ": ORIGIN = ";

pub const LENGTH_FIELD: &'static str = ", LENGTH = 0x";

/// A region declaration as it is written back: the ORIGIN expression's text
/// as it stood, and LENGTH in hexadecimal.
pub open spec fn declaration_text(name: Seq<u8>, attr: Option<Seq<u8>>, origin: Seq<u8>, length: int) -> Seq<u8> {
    name + seq![32u8] + match attr {
        Some(a) => seq![40u8] + a + seq![41u8],
        None => Seq::<u8>::empty(),
    } + ORIGIN_FIELD.spec_bytes() + origin + LENGTH_FIELD.spec_bytes() + hex_text(length as nat)
}

/// The script `s` with `reserved` bytes carved from the end of region
/// `region`: the new text and the first address of the carved space.
pub open spec fn patched(s: Seq<u8>, region: Seq<u8>, reserved: int) -> Result<(Seq<u8>, int), BuildError> {
    let (i, l) = scan_from(s, region, 0);
    match l {
        Line::Found { name, attr, origin, origin_text, length, end } => if reserved > length {
            Err(BuildError::ReservedSpaceExceedsRegion)
        } else if !fits_i64(origin + length - reserved) {
            Err(BuildError::IntegerOverflow)
        } else {
            Ok(
                (
                    s.subrange(0, name.0) + declaration_text(
                        s.subrange(name.0, name.1),
                        match attr {
                            Some(a) => Some(s.subrange(a.0, a.1)),
                            None => None,
                        },
                        s.subrange(origin_text.0, origin_text.1),
                        length - reserved,
                    ) + s.subrange(end, s.len() as int),
                    origin + length - reserved,
                ),
            )
        },
        Line::NoMatch => Err(BuildError::LinkScript(LinkParseErrorKind::RegionNotFound)),
        Line::Fatal { kind } => Err(BuildError::LinkScript(kind)),
    }
}

/// Carves `reserved` bytes from the end of the memory region `region` of a
/// linker script. Only that declaration, from its name on, is written anew,
/// with its LENGTH shortened; the text around it is kept as it is. Also returns the first
/// address of the carved space, ORIGIN plus the new LENGTH.
pub fn build_link_script(script: &[u8], region: &[u8], reserved: u32) -> (r: Result<(Vec<u8>, i64), BuildError>)
    ensures
        match patched(script@, region@, reserved as int) {
            Ok((text, base)) => r is Ok && r->Ok_0.0@ == text && r->Ok_0.1 == base,
            Err(e) => r == Err::<(Vec<u8>, i64), _>(e),
        },
{
    let (i, d) = match locate_region(script, region) {
        Ok(t) => t,
        Err(kind) => return Err(BuildError::LinkScript(kind)),
    };
    let ghost l = scan_from(script@, region@, 0).1;
    if reserved as i64 > d.length {
        return Err(BuildError::ReservedSpaceExceedsRegion);
    }
    let new_length: i64 = d.length - reserved as i64;
    let base: i128 = d.origin as i128 + new_length as i128;
    if base < i64::MIN as i128 || base > i64::MAX as i128 {
        return Err(BuildError::IntegerOverflow);
    }
    let before = vstd::slice::slice_subrange(script, 0, d.name_start);
    let name = vstd::slice::slice_subrange(script, d.name_start, d.name_end);
    let origin = vstd::slice::slice_subrange(script, d.origin_start, d.origin_end);
    let after = vstd::slice::slice_subrange(script, d.end, script.len());
    let mut out: Vec<u8> = Vec::new();
    push_bytes(&mut out, before);
    push_bytes(&mut out, name);
    out.push(32u8);
    let ghost mut attr_text: Option<Seq<u8>> = None;
    match d.attr {
        Some((a0, a1)) => {
            let attr = vstd::slice::slice_subrange(script, a0, a1);
            out.push(40u8);
            push_bytes(&mut out, attr);
            out.push(41u8);
            proof {
                attr_text = Some(attr@);
            }
        },
        None => {},
    }
    push_str(&mut out, ORIGIN_FIELD);
    push_bytes(&mut out, origin);
    push_str(&mut out, LENGTH_FIELD);
    push_hex(&mut out, new_length as u64);
    push_bytes(&mut out, after);
    proof {
        assert(attr_text == match l->Found_attr {
            Some(a) => Some(script@.subrange(a.0, a.1)),
            None => None,
        });
        assert(out@ =~= before@ + declaration_text(name@, attr_text, origin@, new_length as int)
            + after@);
    }
    Ok((out, base as i64))
}


proof fn lemma_hex_text(n: nat)
    ensures
        hex_text(n).len() > 0,
        forall|k: int| 0 <= k < hex_text(n).len() ==> is_hex_digit(#[trigger] hex_text(n)[k]),
        digits_value(hex_text(n), 16) == n,
    decreases n,
{
    let t = hex_text(n);
    if n < 16 {
        assert(t.drop_last() =~= Seq::<u8>::empty());
        assert(digit_value(hex_char(n)) == n);
        assert(digits_value(t, 16) == digits_value(t.drop_last(), 16) * 16 + digit_value(t.last()));
        assert(digits_value(Seq::<u8>::empty(), 16) == 0);
    } else {
        lemma_hex_text(n / 16);
        assert(t.drop_last() =~= hex_text(n / 16));
        assert(t.last() == hex_char(n % 16));
        assert(digit_value(hex_char(n % 16)) == n % 16);
        assert((n / 16) * 16 + n % 16 == n);
        assert(digits_value(t, 16) == digits_value(t.drop_last(), 16) * 16 + digit_value(t.last()));
    }
}

proof fn lemma_hex_end_all(s: Seq<u8>, i: int)
    requires
        0 <= i <= s.len(),
        forall|k: int| i <= k < s.len() ==> is_hex_digit(#[trigger] s[k]),
    ensures
        hex_end(s, i) == s.len(),
    decreases s.len() - i,
{
    if i < s.len() {
        lemma_hex_end_all(s, i + 1);
    }
}

/// A LENGTH written back as `0x` and hexadecimal digits reads as the value
/// that was written.
pub proof fn lemma_length_reads_back(n: int)
    requires
        0 <= n <= i64::MAX,
    ensures
        number_at(seq![48u8, 120u8] + hex_text(n as nat), 0) == (Parsed::Done {
            pos: 2 + hex_text(n as nat).len() as int,
            value: n,
        }),
{
    let t = hex_text(n as nat);
    let s = seq![48u8, 120u8] + t;
    lemma_hex_text(n as nat);
    assert forall|k: int| 2 <= k < s.len() implies is_hex_digit(#[trigger] s[k]) by {
        assert(s[k] == t[k - 2]);
    }
    lemma_hex_end_all(s, 2);
    assert(s.subrange(2, s.len() as int) =~= t);
}

/// The declaration written back keeps its value: its ORIGIN text is the
/// expression that stood there, which evaluates to ORIGIN where it stood, and
/// its LENGTH field reads back as the old LENGTH less what was carved.
pub proof fn lemma_patched_fields(s: Seq<u8>, region: Seq<u8>, reserved: int)
    requires
        0 <= reserved,
        patched(s, region, reserved) is Ok,
    ensures
        ({
            let (i, l) = scan_from(s, region, 0);
            &&& l is Found
            &&& patched(s, region, reserved)->Ok_0.1 == l->origin + l->length - reserved
            &&& patched(s, region, reserved)->Ok_0.0 == s.subrange(0, l->Found_name.0) + declaration_text(
                s.subrange(l->Found_name.0, l->Found_name.1),
                match l->Found_attr {
                    Some(a) => Some(s.subrange(a.0, a.1)),
                    None => None,
                },
                s.subrange(l->origin_text.0, l->origin_text.1),
                l->length - reserved,
            ) + s.subrange(l->end, s.len() as int)
            &&& terms_at(s, l->origin_text.0) == (Parsed::Done {
                pos: l->origin_text.1,
                value: l->origin,
            })
            &&& number_at(seq![48u8, 120u8] + hex_text((l->length - reserved) as nat), 0) == (
            Parsed::Done {
                pos: 2 + hex_text((l->length - reserved) as nat).len() as int,
                value: l->length - reserved,
            })
        }),
{
    let (i, l) = scan_from(s, region, 0);
    lemma_scan_stops_at_first(s, region, 0);
    lemma_line_values_fit(s, i);
    lemma_length_reads_back(l->length - reserved);
}

/// Carving nothing keeps the region's LENGTH: for a region whose LENGTH is
/// not negative and whose end fits in 64 signed bits, the patch succeeds, the
/// base address is the region's end, and the LENGTH written back reads as the
/// old LENGTH.
pub proof fn lemma_reserve_nothing(s: Seq<u8>, region: Seq<u8>)
    requires
        scan_from(s, region, 0).1 is Found,
        0 <= scan_from(s, region, 0).1->length,
        fits_i64(scan_from(s, region, 0).1->origin + scan_from(s, region, 0).1->length),
    ensures
        patched(s, region, 0) is Ok,
        patched(s, region, 0)->Ok_0.1 == scan_from(s, region, 0).1->origin + scan_from(
            s,
            region,
            0,
        ).1->length,
        ({
            let l = scan_from(s, region, 0).1;
            number_at(seq![48u8, 120u8] + hex_text(l->length as nat), 0) == (Parsed::Done {
                pos: 2 + hex_text(l->length as nat).len() as int,
                value: l->length,
            })
        }),
{
    lemma_patched_fields(s, region, 0);
}

/// Carving more than the region holds always fails.
pub proof fn lemma_reserve_too_much(s: Seq<u8>, region: Seq<u8>, reserved: int)
    requires
        scan_from(s, region, 0).1 is Found,
        reserved > scan_from(s, region, 0).1->length,
    ensures
        patched(s, region, reserved) == Err::<(Seq<u8>, int), BuildError>(
            BuildError::ReservedSpaceExceedsRegion,
        ),
{
}

// ---------------------------------------------------------------------------
// Generated accessors
// ---------------------------------------------------------------------------

pub const SOURCE_HEADER: &'static str = "\nuse core::slice;\nuse sha1_smol::Sha1;\n";

pub const FN_OPEN: &'static str = "\npub fn ";

pub const INLINE_BODY: &'static str = "() ->  &'static [u8] {\ninclude_bytes!(\"";

pub const INLINE_END: &'static str = "\")\n}";

pub const LOADED_BODY: &'static str = "() ->  &'static [u8] {\n    let blob = unsafe{slice::from_raw_parts(0x";

pub const LOADED_SIZE: &'static str = " as *const u8, ";

pub const LOADED_CHECKSUM: &'static str = ")}\n;\n    let mut m = Sha1::new();\n    let checksum:[u8;20] = [";

pub const LOADED_CHECK: &'static str = "];\n    m.update(blob);\n    if &m.digest().bytes() != &checksum {\n        panic!(\"Checksum check failed for ";

pub const LOADED_END: &'static str = "\");\n    }\n    blob\n}";

/// The bytes of `c` in decimal, separated by commas.
pub open spec fn checksum_text(c: Seq<u8>) -> Seq<u8>
    decreases c.len(),
{
    if c.len() == 0 {
        Seq::<u8>::empty()
    } else if c.len() == 1 {
        dec_text(c[0] as nat)
    } else {
        checksum_text(c.drop_last()) + seq![44u8] + dec_text(c.last() as nat)
    }
}

/// The accessor of one blob. An inline blob's bytes are embedded from its
/// file; a loaded blob is read at `origin` plus its offset and checked
/// against its SHA-1 digest before it is handed out.
pub open spec fn accessor_text(b: BlobView, origin: int) -> Seq<u8> {
    let name = vstd::utf8::encode_utf8(b.name);
    if b.inline {
        FN_OPEN.spec_bytes() + name + INLINE_BODY.spec_bytes() + vstd::utf8::encode_utf8(b.filename)
            + INLINE_END.spec_bytes()
    } else {
        FN_OPEN.spec_bytes() + name + LOADED_BODY.spec_bytes() + hex_text((b.start + origin) as nat)
            + LOADED_SIZE.spec_bytes() + dec_text(b.size as nat) + LOADED_CHECKSUM.spec_bytes()
            + checksum_text(b.checksum) + LOADED_CHECK.spec_bytes() + name + LOADED_END.spec_bytes()
    }
}

/// The header and the accessors of the first `k` blobs.
pub open spec fn source_text(blobs: Seq<BlobView>, k: int, origin: int) -> Seq<u8>
    decreases k,
{
    if k <= 0 {
        SOURCE_HEADER.spec_bytes()
    } else {
        source_text(blobs, k - 1, origin) + accessor_text(blobs[k - 1], origin)
    }
}

fn push_checksum(out: &mut Vec<u8>, c: &[u8; 20])
    ensures
        final(out)@ == old(out)@ + checksum_text(c@),
{
    let ghost start = out@;
    let mut i: usize = 0;
    while i < 20
        invariant
            0 <= i <= 20,
            c@.len() == 20,
            out@ == start + checksum_text(c@.subrange(0, i as int)),
        decreases 20 - i,
    {
        let ghost before = out@;
        if i > 0 {
            out.push(44u8);
        }
        push_dec(out, c[i] as u64);
        proof {
            let p = c@.subrange(0, i + 1);
            assert(p.drop_last() =~= c@.subrange(0, i as int));
            assert(p.last() == c@[i as int]);
            if i == 0 {
                assert(checksum_text(c@.subrange(0, 0)) =~= Seq::<u8>::empty());
                assert(out@ =~= start + checksum_text(p));
            } else {
                assert(out@ =~= start + checksum_text(p));
            }
        }
        i = i + 1;
    }
    assert(c@.subrange(0, 20) =~= c@);
}

fn push_string(out: &mut Vec<u8>, s: &String)
    ensures
        final(out)@ == old(out)@ + vstd::utf8::encode_utf8(s@),
{
    push_str(out, s.as_str());
}

fn push_accessor(out: &mut Vec<u8>, b: &Blob, origin: u32)
    requires
        !b.inline ==> b.start + origin <= u32::MAX,
    ensures
        final(out)@ == old(out)@ + accessor_text(b@, origin as int),
{
    let ghost before = out@;
    push_str(out, FN_OPEN);
    push_string(out, &b.name);
    if b.inline {
        push_str(out, INLINE_BODY);
        push_string(out, &b.filename);
        push_str(out, INLINE_END);
    } else {
        push_str(out, LOADED_BODY);
        push_hex(out, b.start as u64 + origin as u64);
        push_str(out, LOADED_SIZE);
        push_dec(out, b.size as u64);
        push_str(out, LOADED_CHECKSUM);
        push_checksum(out, &b.checksum);
        push_str(out, LOADED_CHECK);
        push_string(out, &b.name);
        push_str(out, LOADED_END);
    }
    assert(out@ =~= before + accessor_text(b@, origin as int));
}

/// Writes the accessor source for `blobs`, whose reserved space starts at
/// address `origin`.
pub fn build_source(blobs: &Vec<Blob>, origin: u32) -> (r: Vec<u8>)
    requires
        addresses_fit(views(blobs@), origin as int),
    ensures
        r@ == source_text(views(blobs@), blobs@.len() as int, origin as int),
{
    let mut out: Vec<u8> = Vec::new();
    push_str(&mut out, SOURCE_HEADER);
    let mut k: usize = 0;
    while k < blobs.len()
        invariant
            0 <= k <= blobs@.len(),
            addresses_fit(views(blobs@), origin as int),
            out@ == source_text(views(blobs@), k as int, origin as int),
        decreases blobs@.len() - k,
    {
        let b = &blobs[k];
        assert(views(blobs@)[k as int] == b@);
        assert(!b.inline ==> b.start + origin <= u32::MAX) by {
            assert(!views(blobs@)[k as int].inline ==> views(blobs@)[k as int].start + origin
                <= u32::MAX);
        }
        push_accessor(&mut out, b, origin);
        k = k + 1;
    }
    out
}


// ---------------------------------------------------------------------------
// Manifest
// ---------------------------------------------------------------------------

/// The blobs among the first `k` that are loaded rather than inline.
pub open spec fn loaded_upto(blobs: Seq<BlobView>, k: int) -> Seq<BlobView>
    decreases k,
{
    if k <= 0 {
        Seq::<BlobView>::empty()
    } else if blobs[k - 1].inline {
        loaded_upto(blobs, k - 1)
    } else {
        loaded_upto(blobs, k - 1).push(blobs[k - 1])
    }
}

/// Every loaded blob's absolute address fits in 32 bits.
pub open spec fn addresses_fit(blobs: Seq<BlobView>, origin: int) -> bool {
    forall|k: int|
        0 <= k < blobs.len() && !(#[trigger] blobs[k]).inline ==> blobs[k].start + origin <= u32::MAX
}

/// Manifest entry `e` describes blob `b` placed from `origin` on.
pub open spec fn entry_is(e: (String, BlobInfo), b: BlobView, origin: int) -> bool {
    e.0@ == b.name && e.1.start == b.start + origin && e.1.size == b.size && e.1.checksum@
        == b.checksum && e.1.filename@ == b.filename
}

/// The manifest describes exactly the loaded blobs of `blobs`, in order.
pub open spec fn manifest_is(m: BlobInfoFile, blobs: Seq<BlobView>, origin: int, chip: Seq<char>) -> bool {
    let loaded = loaded_upto(blobs, blobs.len() as int);
    &&& m.info@.len() == loaded.len()
    &&& forall|j: int| 0 <= j < loaded.len() ==> entry_is(#[trigger] m.info@[j], loaded[j], origin)
    &&& m.probe.chip@ == chip
}

/// No two blobs share a name.
pub open spec fn view_names_distinct(bs: Seq<BlobView>) -> bool {
    forall|j: int, k: int| 0 <= j < k < bs.len() ==> #[trigger] bs[j].name != #[trigger] bs[k].name
}

/// No two manifest entries share a name: the name is the entry's key.
pub open spec fn manifest_names_distinct(m: BlobInfoFile) -> bool {
    forall|j: int, k: int|
        0 <= j < k < m.info@.len() ==> #[trigger] m.info@[j].0@ != #[trigger] m.info@[k].0@
}

/// Some blob before `k` has the name `name`.
pub open spec fn named_before(bv: Seq<BlobView>, k: int, name: Seq<char>) -> bool {
    exists|m: int| 0 <= m < k && #[trigger] bv[m].name == name
}

proof fn lemma_loaded_names_distinct(bv: Seq<BlobView>, k: int)
    requires
        0 <= k <= bv.len(),
        view_names_distinct(bv),
    ensures
        view_names_distinct(loaded_upto(bv, k)),
        forall|j: int|
            0 <= j < loaded_upto(bv, k).len() ==> named_before(bv, k, #[trigger] loaded_upto(bv, k)[j].name),
    decreases k,
{
    if k > 0 {
        lemma_loaded_names_distinct(bv, k - 1);
        let l = loaded_upto(bv, k - 1);
        if !bv[k - 1].inline {
            let l2 = l.push(bv[k - 1]);
            assert forall|j: int| 0 <= j < l.len() implies l2[j].name != bv[k - 1].name by {
                let m = choose|m: int| 0 <= m < k - 1 && #[trigger] bv[m].name == l[j].name;
                assert(bv[m].name != bv[k - 1].name);
            }
            assert forall|j: int| 0 <= j < l2.len() implies named_before(bv, k, #[trigger] l2[j].name) by {
                if j < l.len() {
                    let m = choose|m: int| 0 <= m < k - 1 && #[trigger] bv[m].name == l[j].name;
                    assert(bv[m].name == l2[j].name);
                } else {
                    assert(bv[k - 1].name == l2[j].name);
                }
            }
            assert forall|a: int, b: int| 0 <= a < b < l2.len() implies #[trigger] l2[a].name
                != #[trigger] l2[b].name by {
                if b == l.len() {
                    assert(l2[a].name != bv[k - 1].name);
                } else {
                    assert(l2[a] == l[a] && l2[b] == l[b]);
                }
            }
        }
    }
}

/// Builds the manifest for the loader: each blob that is not inline, with
/// its absolute address, and the chip that the probe talks to.
pub fn build_blob_info(blobs: &Vec<Blob>, origin: u32, chip: &str) -> (r: Result<BlobInfoFile, BuildError>)
    ensures
        r is Ok <==> addresses_fit(views(blobs@), origin as int),
        r is Err ==> r == Err::<BlobInfoFile, _>(BuildError::IntegerOverflow),
        r is Ok ==> manifest_is(r->Ok_0, views(blobs@), origin as int, chip@),
        r is Ok && view_names_distinct(views(blobs@)) ==> manifest_names_distinct(r->Ok_0),
{
    let ghost bv = views(blobs@);
    let mut info: Vec<(String, BlobInfo)> = Vec::new();
    let mut k: usize = 0;
    while k < blobs.len()
        invariant
            0 <= k <= blobs@.len(),
            bv == views(blobs@),
            addresses_fit(bv.subrange(0, k as int), origin as int),
            info@.len() == loaded_upto(bv, k as int).len(),
            forall|j: int|
                0 <= j < info@.len() ==> entry_is(
                    #[trigger] info@[j],
                    loaded_upto(bv, k as int)[j],
                    origin as int,
                ),
        decreases blobs@.len() - k,
    {
        let b = &blobs[k];
        assert(bv[k as int] == b@);
        if !b.inline {
            let start: u64 = b.start as u64 + origin as u64;
            if start > 0xffff_ffffu64 {
                assert(!addresses_fit(bv, origin as int)) by {
                    assert(!bv[k as int].inline);
                }
                return Err(BuildError::IntegerOverflow);
            }
            info.push(
                (
                    b.name.clone(),
                    BlobInfo {
                        start: start as u32,
                        size: b.size,
                        checksum: b.checksum,
                        filename: b.filename.clone(),
                    },
                ),
            );
        }
        assert forall|j: int|
            0 <= j < k + 1 && !(#[trigger] bv.subrange(0, k + 1)[j]).inline implies bv.subrange(
            0,
            k + 1,
        )[j].start + origin <= u32::MAX by {
            if j < k {
                assert(bv.subrange(0, k + 1)[j] == bv.subrange(0, k as int)[j]);
            }
        }
        k = k + 1;
    }
    assert(bv.subrange(0, blobs@.len() as int) =~= bv);
    let r = BlobInfoFile { info, probe: ProbeInfo { chip: chip.to_owned() } };
    proof {
        if view_names_distinct(bv) {
            lemma_loaded_names_distinct(bv, bv.len() as int);
            let l = loaded_upto(bv, bv.len() as int);
            assert forall|j: int, k: int| 0 <= j < k < r.info@.len() implies #[trigger] r.info@[j].0@
                != #[trigger] r.info@[k].0@ by {
                assert(entry_is(r.info@[j], l[j], origin as int));
                assert(entry_is(r.info@[k], l[k], origin as int));
            }
        }
    }
    Ok(r)
}

// ---------------------------------------------------------------------------
// The whole build
// ---------------------------------------------------------------------------

/// What a build produces: the patched linker script, the accessor source,
/// the manifest, and the first address of the reserved space.
pub struct BuildOutputs {
    pub link_script: Vec<u8>,
    pub source: Vec<u8>,
    pub info: BlobInfoFile,
    pub base: u32,
}

/// The outcome of a build: the patched script and the base address, or the
/// first error met.
pub open spec fn build_outcome(scanned: Seq<ScannedBlob>, release: bool, script: Seq<u8>, region: Seq<u8>) -> Result<(Seq<u8>, int), BuildError> {
    if scanned.len() == 0 {
        Err(BuildError::NoBlobsDefined)
    } else if !layout_fits(scanned, release) {
        Err(BuildError::IntegerOverflow)
    } else {
        match patched(script, region, reserved_upto(scanned, release, scanned.len() as int)) {
            Ok((text, base)) => if !(0 <= base <= u32::MAX) {
                Err(BuildError::IntegerOverflow)
            } else if !addresses_fit(layout_view(scanned, release), base) {
                Err(BuildError::IntegerOverflow)
            } else {
                Ok((text, base))
            },
            Err(e) => Err(e),
        }
    }
}

/// Lays out the blobs, carves their space from region `region` of the
/// linker script, and writes the accessor source and the manifest.
pub fn build_outputs(
    scanned: &Vec<ScannedBlob>,
    release: bool,
    script: &[u8],
    region: &[u8],
    chip: &str,
) -> (r: Result<BuildOutputs, BuildError>)
    requires
        names_distinct(scanned@),
    ensures
        match build_outcome(scanned@, release, script@, region@) {
            Ok((text, base)) => r is Ok && r->Ok_0.link_script@ == text && r->Ok_0.base == base
                && r->Ok_0.source@ == source_text(
                layout_view(scanned@, release),
                scanned@.len() as int,
                base,
            ) && manifest_is(r->Ok_0.info, layout_view(scanned@, release), base, chip@)
                && manifest_names_distinct(r->Ok_0.info),
            Err(e) => r == Err::<BuildOutputs, _>(e),
        },
{
    let (blobs, total) = match layout_blobs(scanned, release) {
        Ok(t) => t,
        Err(e) => return Err(e),
    };
    let (link_script, end) = match build_link_script(script, region, total) {
        Ok(t) => t,
        Err(e) => return Err(e),
    };
    if end < 0 || end > 0xffff_ffffi64 {
        return Err(BuildError::IntegerOverflow);
    }
    let base = end as u32;
    let info = match build_blob_info(&blobs, base, chip) {
        Ok(i) => i,
        Err(e) => return Err(e),
    };
    assert(view_names_distinct(views(blobs@))) by {
        assert forall|j: int, k: int| 0 <= j < k < views(blobs@).len() implies #[trigger] views(
            blobs@,
        )[j].name != #[trigger] views(blobs@)[k].name by {
            assert(scanned@[j].name@ != scanned@[k].name@);
        }
    }
    let source = build_source(&blobs, base);
    Ok(BuildOutputs { link_script, source, info, base })
}

} // verus!
