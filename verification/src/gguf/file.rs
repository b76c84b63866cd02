//! A parsed file: header, metadata, tensor directory and the place of the data.

use crate::gguf::error::{Error, ErrorView};
use crate::gguf::fingerprint;
use crate::gguf::metadata;
use crate::gguf::metadata::{Metadata, ValueView};
use crate::gguf::reader;
use crate::gguf::reader::Reader;
use crate::gguf::tensor;
use crate::gguf::tensor::{parse_tensor_directory, TensorInfo, TensorView};
use crate::gguf::{MAGIC, SUPPORTED_VERSION};
use crate::text;
use vstd::prelude::*;

verus! {

/// Alignment of the tensor data where the metadata says nothing.
pub const DEFAULT_ALIGNMENT: u64 = 32;

/// Largest alignment that is accepted.
pub const MAX_ALIGNMENT: u64 = 65_536;

/// The least size of a file.
pub const MIN_FILE_SIZE: u64 = 32;

/// The least multiple of `alignment` that is not below `value`.
pub open spec fn aligned(value: nat, alignment: nat) -> nat {
    (value + alignment - 1) as nat / alignment * alignment
}

/// `aligned` is a multiple, not below the value, and no smaller multiple is.
pub proof fn law_aligned_is_least(value: nat, alignment: nat, multiple: nat)
    requires
        alignment > 0,
    ensures
        aligned(value, alignment) % alignment == 0,
        aligned(value, alignment) >= value,
        aligned(value, alignment) < value + alignment,
        multiple % alignment == 0 && multiple >= value ==> multiple >= aligned(value, alignment),
{
    let a = alignment as int;
    let sum = value + a - 1;
    let q = sum / a;
    vstd::arithmetic::div_mod::lemma_fundamental_div_mod(sum, a);
    vstd::arithmetic::div_mod::lemma_mod_multiples_basic(q, a);
    assert(a * q == q * a) by (nonlinear_arith);
    if multiple % alignment == 0 && multiple >= value && multiple < aligned(value, alignment) {
        let m = multiple as int / a;
        vstd::arithmetic::div_mod::lemma_fundamental_div_mod(multiple as int, a);
        assert(m < q) by (nonlinear_arith)
            requires
                a * m < q * a,
                a > 0,
        ;
        assert(a * m <= q * a - a) by (nonlinear_arith)
            requires
                m <= q - 1,
                a > 0,
        ;
    }
}

/// Round `value` up to the next multiple of `alignment`. Returns `None` where
/// that does not fit 64 bits.
pub fn align_up(value: u64, alignment: u64) -> (r: Option<u64>)
    requires
        alignment > 0,
    ensures
        r == if aligned(value as nat, alignment as nat) <= u64::MAX {
            Some(aligned(value as nat, alignment as nat) as u64)
        } else {
            None
        },
{
    let rest: u64 = value % alignment;
    proof {
        let a = alignment as int;
        let q = value as int / a;
        vstd::arithmetic::div_mod::lemma_fundamental_div_mod(value as int, a);
        assert(a * q == q * a) by (nonlinear_arith);
        assert((q + 1) * a == q * a + a) by (nonlinear_arith);
        if rest == 0 {
            vstd::arithmetic::div_mod::lemma_fundamental_div_mod_converse(value + a - 1, a, q, a - 1);
        } else {
            vstd::arithmetic::div_mod::lemma_fundamental_div_mod_converse(
                value + a - 1,
                a,
                q + 1,
                rest - 1,
            );
        }
    }
    if rest == 0 {
        Some(value)
    } else {
        value.checked_add(alignment - rest)
    }
}

/// What a file holds beside the data.
#[verifier::ext_equal]
pub struct ParsedView {
    pub version: u32,
    pub alignment: nat,
    pub tensor_data_offset: nat,
    pub metadata: Map<Seq<char>, ValueView>,
    pub tensors: Seq<TensorView>,
}

/// The alignment that metadata sets, or the default.
pub open spec fn alignment_of(table: Map<Seq<char>, ValueView>) -> nat {
    if table.contains_key("general.alignment"@) && table["general.alignment"@].unsigned() is Some {
        table["general.alignment"@].unsigned()->0
    } else {
        DEFAULT_ALIGNMENT as nat
    }
}

/// How much of a file is left behind a position.
pub open spec fn left_behind(file_size: nat, at: nat) -> nat {
    if at <= file_size {
        (file_size - at) as nat
    } else {
        0
    }
}

/// Why the data of a tensor cannot lie in the file, if it cannot. A tensor of
/// unknown size is not checked.
pub open spec fn placement_error(t: TensorView, offset: nat, file_size: nat) -> Option<ErrorView> {
    match t.byte_size {
        None => None,
        Some(size) => {
            let start = offset + t.relative_offset as nat;
            if start > u64::MAX {
                Some(
                    ErrorView::Truncated { pos: offset, need: t.relative_offset as nat, have: 0 },
                )
            } else if start + size > u64::MAX || start + size > file_size {
                Some(
                    ErrorView::Truncated {
                        pos: start,
                        need: size as nat,
                        have: left_behind(file_size, start),
                    },
                )
            } else {
                None
            }
        },
    }
}

/// The error of the first tensor that is misplaced.
pub open spec fn first_misplaced(tensors: Seq<TensorView>, offset: nat, file_size: nat) -> Option<
    ErrorView,
>
    decreases tensors.len(),
{
    if tensors.len() == 0 {
        None
    } else {
        match first_misplaced(tensors.drop_last(), offset, file_size) {
            Some(e) => Some(e),
            None => placement_error(tensors.last(), offset, file_size),
        }
    }
}

/// The part of a file behind the counts of its header.
pub open spec fn body_at(
    data: Seq<u8>,
    at: nat,
    version: u32,
    n_tensors: u64,
    n_kv: u64,
    file_size: nat,
) -> Result<ParsedView, ErrorView> {
    match metadata::table_at(data, at, n_kv as nat) {
        (Err(e), _) => Err(e),
        (Ok(table), directory) => match tensor::directory_at(data, directory, n_tensors) {
            (Err(e), _) => Err(e),
            (Ok(tensors), end) => {
                let alignment = alignment_of(table);
                let offset = aligned(end, alignment);
                if alignment == 0 || alignment > MAX_ALIGNMENT || offset > u64::MAX {
                    Err(ErrorView::InvalidAlignment(alignment))
                } else {
                    match first_misplaced(tensors, offset, file_size) {
                        Some(e) => Err(e),
                        None => Ok(
                            ParsedView {
                                version,
                                alignment,
                                tensor_data_offset: offset,
                                metadata: table,
                                tensors,
                            },
                        ),
                    }
                }
            },
        },
    }
}

/// What bytes hold as a file of the given size: magic, version, the numbers of
/// tensors and of metadata entries, the metadata and the directory.
pub open spec fn file_of(data: Seq<u8>, file_size: nat) -> Result<ParsedView, ErrorView> {
    match reader::bytes_at(data, 0, 4) {
        (Err(e), _) => Err(e),
        (Ok(magic), version_at) => if magic != MAGIC@ {
            Err(ErrorView::BadMagic { found: magic })
        } else {
            match reader::u32_at(data, version_at) {
                (Err(e), _) => Err(e),
                (Ok(version), counts_at) => if version != SUPPORTED_VERSION {
                    Err(ErrorView::UnsupportedVersion(version))
                } else {
                    match reader::u64_at(data, counts_at) {
                        (Err(e), _) => Err(e),
                        (Ok(n_tensors), n_kv_at) => match reader::u64_at(data, n_kv_at) {
                            (Err(e), _) => Err(e),
                            (Ok(n_kv), start) => body_at(
                                data,
                                start,
                                version,
                                n_tensors,
                                n_kv,
                                file_size,
                            ),
                        },
                    }
                },
            }
        },
    }
}

/// In a file that is accepted, the data of every tensor of known size lies
/// inside the file.
pub proof fn law_data_lies_inside(data: Seq<u8>, file_size: nat, i: int)
    requires
        file_of(data, file_size) is Ok,
        0 <= i < file_of(data, file_size)->Ok_0.tensors.len(),
        file_of(data, file_size)->Ok_0.tensors[i].byte_size is Some,
    ensures
        ({
            let file = file_of(data, file_size)->Ok_0;
            let t = file.tensors[i];
            file.tensor_data_offset + t.relative_offset + t.byte_size->0 <= file_size
        }),
{
    let file = file_of(data, file_size)->Ok_0;
    lemma_placed(file.tensors, file.tensor_data_offset, file_size, i);
}

/// Where no tensor is misplaced, each one is in place.
proof fn lemma_placed(tensors: Seq<TensorView>, offset: nat, file_size: nat, i: int)
    requires
        first_misplaced(tensors, offset, file_size) is None,
        0 <= i < tensors.len(),
    ensures
        placement_error(tensors[i], offset, file_size) is None,
    decreases tensors.len(),
{
    if i < tensors.len() - 1 {
        lemma_placed(tensors.drop_last(), offset, file_size, i);
        assert(tensors.drop_last()[i] == tensors[i]);
    }
}

/// An error among the first tensors is the first error of all.
proof fn lemma_misplaced(tensors: Seq<TensorView>, k: int, offset: nat, file_size: nat)
    requires
        0 <= k <= tensors.len(),
        first_misplaced(tensors.take(k), offset, file_size) is Some,
    ensures
        first_misplaced(tensors, offset, file_size) == first_misplaced(
            tensors.take(k),
            offset,
            file_size,
        ),
    decreases tensors.len(),
{
    if k == tensors.len() {
        assert(tensors.take(k) =~= tensors);
    } else {
        let shorter = tensors.drop_last();
        assert(shorter.take(k) =~= tensors.take(k));
        lemma_misplaced(shorter, k, offset, file_size);
    }
}

/// What was read of a file.
#[derive(Debug)]
pub struct Parsed {
    pub version: u32,
    pub alignment: u64,
    pub tensor_data_offset: u64,
    pub metadata: Metadata,
    pub tensors: Vec<TensorInfo>,
}

impl View for Parsed {
    type V = ParsedView;

    open spec fn view(&self) -> ParsedView {
        ParsedView {
            version: self.version,
            alignment: self.alignment as nat,
            tensor_data_offset: self.tensor_data_offset as nat,
            metadata: self.metadata@,
            tensors: tensor::views(self.tensors@),
        }
    }
}

/// Checks that the data of every tensor of known size lies in the file.
fn check_placement(tensors: &[TensorInfo], offset: u64, file_size: u64) -> (r: Result<(), Error>)
    ensures
        match r {
            Ok(_) => first_misplaced(tensor::views(tensors@), offset as nat, file_size as nat) is None,
            Err(e) => first_misplaced(tensor::views(tensors@), offset as nat, file_size as nat)
                == Some(e@),
        },
{
    let ghost all = tensor::views(tensors@);
    let mut i: usize = 0;
    assert(all.take(0) =~= Seq::empty());
    while i < tensors.len()
        invariant
            i <= tensors@.len(),
            all == tensor::views(tensors@),
            first_misplaced(all.take(i as int), offset as nat, file_size as nat) is None,
        decreases tensors@.len() - i,
    {
        let t: &TensorInfo = &tensors[i];
        assert(all.take(i + 1).drop_last() =~= all.take(i as int));
        assert(all.take(i + 1).last() == t@);
        let failure: Option<Error> = match t.byte_size {
            None => None,
            Some(size) => match offset.checked_add(t.relative_offset) {
                None => Some(Error::Truncated { pos: offset, need: t.relative_offset, have: 0 }),
                Some(start) => {
                    let have: u64 = if start <= file_size {
                        file_size - start
                    } else {
                        0
                    };
                    if size > have || start > file_size {
                        Some(Error::Truncated { pos: start, need: size, have })
                    } else {
                        None
                    }
                },
            },
        };
        match failure {
            Some(e) => {
                proof {
                    lemma_misplaced(all, i + 1, offset as nat, file_size as nat);
                }
                return Err(e);
            },
            None => {},
        }
        i = i + 1;
    }
    assert(all.take(i as int) =~= all);
    Ok(())
}

/// Reads the bytes of a file whose full size is `file_size`.
pub fn parse_all(bytes: &[u8], file_size: u64) -> (r: Result<Parsed, Error>)
    ensures
        match r {
            Ok(p) => file_of(bytes@, file_size as nat) == Ok::<ParsedView, ErrorView>(p@)
                && p.metadata.wf(),
            Err(e) => file_of(bytes@, file_size as nat) == Err::<ParsedView, ErrorView>(e@),
        },
{
    let mut reader: Reader<'_> = Reader::new(bytes);
    let magic: &[u8] = match reader.read_bytes(4) {
        Ok(m) => m,
        Err(e) => return Err(e),
    };
    let found: [u8; 4] = [magic[0], magic[1], magic[2], magic[3]];
    assert(found@ =~= magic@);
    if found[0] != MAGIC[0] || found[1] != MAGIC[1] || found[2] != MAGIC[2] || found[3] != MAGIC[3] {
        return Err(Error::BadMagic { found });
    }
    assert(found@ =~= MAGIC@);
    let version: u32 = match reader.read_u32_le() {
        Ok(v) => v,
        Err(e) => return Err(e),
    };
    if version != SUPPORTED_VERSION {
        return Err(Error::UnsupportedVersion(version));
    }
    let n_tensors: u64 = match reader.read_u64_le() {
        Ok(v) => v,
        Err(e) => return Err(e),
    };
    let n_kv: u64 = match reader.read_u64_le() {
        Ok(v) => v,
        Err(e) => return Err(e),
    };
    let table: Metadata = match Metadata::parse(&mut reader, n_kv) {
        Ok(m) => m,
        Err(e) => return Err(e),
    };
    let tensors: Vec<TensorInfo> = match parse_tensor_directory(&mut reader, n_tensors) {
        Ok(t) => t,
        Err(e) => return Err(e),
    };
    let alignment: u64 = match table.get_u64("general.alignment") {
        Some(a) => a,
        None => DEFAULT_ALIGNMENT,
    };
    if alignment == 0 || alignment > MAX_ALIGNMENT {
        return Err(Error::InvalidAlignment(alignment));
    }
    let tensor_data_offset: u64 = match align_up(reader.pos(), alignment) {
        Some(o) => o,
        None => return Err(Error::InvalidAlignment(alignment)),
    };
    match check_placement(tensors.as_slice(), tensor_data_offset, file_size) {
        Ok(_) => {},
        Err(e) => return Err(e),
    }
    Ok(Parsed { version, alignment, tensor_data_offset, metadata: table, tensors })
}

/// Where the data of a tensor lies, if its size is known.
pub open spec fn data_range(t: TensorView, offset: nat) -> Option<(nat, nat)> {
    match t.byte_size {
        Some(size) => Some(
            (offset + t.relative_offset as nat, offset + t.relative_offset as nat + size as nat),
        ),
        None => None,
    }
}

/// The data of a tensor; `None` if its size is unknown or it does not lie in
/// the bytes.
pub fn payload<'a>(bytes: &'a [u8], tensor_data_offset: u64, info: &TensorInfo) -> (r: Option<
    &'a [u8],
>)
    ensures
        match r {
            Some(s) => data_range(info@, tensor_data_offset as nat) matches Some((start, end)) && end
                <= bytes@.len() && s@ == bytes@.subrange(start as int, end as int),
            None => match data_range(info@, tensor_data_offset as nat) {
                Some((start, end)) => end > bytes@.len(),
                None => true,
            },
        },
{
    let size: u64 = match info.byte_size {
        Some(s) => s,
        None => return None,
    };
    let len: u64 = bytes.len() as u64;
    let start: u64 = match tensor_data_offset.checked_add(info.relative_offset) {
        Some(s) => s,
        None => return None,
    };
    if start > len || size > len - start {
        return None;
    }
    Some(vstd::slice::slice_subrange(bytes, start as usize, (start + size) as usize))
}

/// A fingerprint as hexadecimal digits.
pub fn hex32(bytes: &[u8; 32]) -> (s: String)
    ensures
        s@ == text::hex_of(bytes@),
{
    text::hex(vstd::array::array_as_slice(bytes))
}

/// A parsed file with access to the data of its tensors.
#[derive(Debug)]
pub struct GgufFile {
    bytes: Vec<u8>,
    parsed: Parsed,
    fingerprint: [u8; 32],
}

impl View for GgufFile {
    type V = ParsedView;

    closed spec fn view(&self) -> ParsedView {
        self.parsed@
    }
}

impl GgufFile {
    /// The bytes of the file.
    pub closed spec fn data(&self) -> Seq<u8> {
        self.bytes@
    }

    /// The digest of the tensor layout.
    pub closed spec fn digest(&self) -> Seq<u8> {
        self.fingerprint@
    }

    /// What was parsed is what the bytes hold.
    pub closed spec fn wf(&self) -> bool {
        &&& self.parsed.metadata.wf()
        &&& file_of(self.bytes@, self.bytes@.len()) == Ok::<ParsedView, ErrorView>(self.parsed@)
        &&& self.fingerprint@ == fingerprint::sha256_of(
            fingerprint::layout_bytes(self.parsed@.tensors),
        )
    }

    /// Parse a file from its bytes.
    pub fn from_bytes(bytes: Vec<u8>) -> (r: Result<Self, Error>)
        ensures
            match r {
                Ok(f) => bytes@.len() >= MIN_FILE_SIZE && file_of(bytes@, bytes@.len()) == Ok::<
                    ParsedView,
                    ErrorView,
                >(f@) && f.data() == bytes@ && f.wf() && f.digest() == fingerprint::sha256_of(
                    fingerprint::layout_bytes(f@.tensors),
                ),
                Err(e) => if bytes@.len() < MIN_FILE_SIZE {
                    e@ == ErrorView::TooSmall(bytes@.len())
                } else {
                    file_of(bytes@, bytes@.len()) == Err::<ParsedView, ErrorView>(e@)
                },
            },
    {
        let size: u64 = bytes.len() as u64;
        if size < MIN_FILE_SIZE {
            return Err(Error::TooSmall(size));
        }
        let parsed: Parsed = match parse_all(bytes.as_slice(), size) {
            Ok(p) => p,
            Err(e) => return Err(e),
        };
        let fingerprint: [u8; 32] = fingerprint::compute_fingerprint(parsed.tensors.as_slice());
        Ok(GgufFile { bytes, parsed, fingerprint })
    }

    /// Format version, which is the supported one.
    pub fn version(&self) -> (v: u32)
        requires
            self.wf(),
        ensures
            v == self@.version,
            v == SUPPORTED_VERSION,
    {
        self.parsed.version
    }

    /// Alignment of the tensor data in bytes.
    pub fn alignment(&self) -> (a: u64)
        ensures
            a == self@.alignment,
    {
        self.parsed.alignment
    }

    /// File offset at which the tensor data begins.
    pub fn tensor_data_offset(&self) -> (o: u64)
        ensures
            o == self@.tensor_data_offset,
    {
        self.parsed.tensor_data_offset
    }

    /// File size in bytes.
    pub fn file_size(&self) -> (n: u64)
        ensures
            n == self.data().len(),
    {
        self.bytes.len() as u64
    }

    /// The metadata table.
    pub fn metadata(&self) -> (m: &Metadata)
        requires
            self.wf(),
        ensures
            m.wf(),
            m@ == self@.metadata,
    {
        &self.parsed.metadata
    }

    /// All tensor descriptors, in directory order.
    pub fn tensors(&self) -> (t: &[TensorInfo])
        ensures
            tensor::views(t@) == self@.tensors,
    {
        self.parsed.tensors.as_slice()
    }

    /// Look up a tensor descriptor by name; the first one of that name.
    pub fn tensor(&self, name: &str) -> (r: Option<&TensorInfo>)
        ensures
            match r {
                Some(t) => exists|i: int|
                    0 <= i < self@.tensors.len() && #[trigger] self@.tensors[i] == t@ && t.name@
                        == name@ && forall|j: int|
                        0 <= j < i ==> (#[trigger] self@.tensors[j]).name != name@,
                None => forall|i: int|
                    0 <= i < self@.tensors.len() ==> (#[trigger] self@.tensors[i]).name != name@,
            },
    {
        let ghost all = tensor::views(self.parsed.tensors@);
        let wanted: String = name.to_owned();
        let mut i: usize = 0;
        while i < self.parsed.tensors.len()
            invariant
                i <= self.parsed.tensors@.len(),
                wanted@ == name@,
                all == self@.tensors,
                all == tensor::views(self.parsed.tensors@),
                forall|j: int| 0 <= j < i ==> (#[trigger] all[j]).name != name@,
            decreases self.parsed.tensors@.len() - i,
        {
            assert(all[i as int] == self.parsed.tensors@[i as int]@);
            if self.parsed.tensors[i].name == wanted {
                return Some(&self.parsed.tensors[i]);
            }
            i = i + 1;
        }
        None
    }

    /// SHA-256 fingerprint of the tensor layout, without the data.
    pub fn fingerprint(&self) -> (d: &[u8; 32])
        requires
            self.wf(),
        ensures
            d@ == self.digest(),
            d@ == fingerprint::sha256_of(fingerprint::layout_bytes(self@.tensors)),
    {
        &self.fingerprint
    }

    /// The data of a tensor; `None` if its type or size is unknown or it does
    /// not lie in the file.
    pub fn tensor_bytes(&self, info: &TensorInfo) -> (r: Option<&[u8]>)
        ensures
            match r {
                Some(s) => data_range(info@, self@.tensor_data_offset) matches Some((start, end))
                    && end <= self.data().len() && s@ == self.data().subrange(
                    start as int,
                    end as int,
                ),
                None => match data_range(info@, self@.tensor_data_offset) {
                    Some((start, end)) => end > self.data().len(),
                    None => true,
                },
            },
    {
        payload(self.bytes.as_slice(), self.parsed.tensor_data_offset, info)
    }
}

} // verus!
