//! Encoding and decoding the header: `clog @<version>\n` followed by
//! `<salt>.<nonce>.<metadata length>.<metadata offset>\n`, the salt and
//! nonce in base64 and both numbers zero-padded to 8 digits, 72 bytes in
//! all.  The numbers are rewritten in place, so their width never changes.
use crate::crypto::{
    base64_of, decode_base64, encode_base64, is_base64_byte, lemma_base64, NONCE_LEN,
};
use crate::content::SALT_LEN;
use crate::error::ClogError;
use crate::layout::{HEADER_LENGTH, MAX_FIELD};
use vstd::prelude::*;
use vstd::slice::{slice_subrange, slice_to_vec};

verus! {

/// `clog @`, which opens every store file.
pub open spec fn magic() -> Seq<u8> {
    seq![99u8, 108u8, 111u8, 103u8, 32u8, 64u8]
}

/// The format version this library writes: `0.0.1`.
pub open spec fn version() -> Seq<u8> {
    seq![48u8, 46u8, 48u8, 46u8, 49u8]
}

/// The format version this library writes, as bytes.
pub fn version_bytes() -> (r: Vec<u8>)
    ensures
        r@ == version(),
{
    let r = vec![48u8, 46u8, 48u8, 46u8, 49u8];
    assert(r@ =~= version());
    r
}

/// Byte position of the second header line.
pub const LINE2_START: usize = 12;

/// `10` to the power `w`.
pub open spec fn pow10(w: nat) -> nat
    decreases w,
{
    if w == 0 {
        1
    } else {
        10 * pow10((w - 1) as nat)
    }
}

/// The ASCII digit for `d < 10`.
pub open spec fn digit(d: nat) -> u8 {
    (48 + d) as u8
}

/// `v` in decimal, zero-padded (or cut) to its last `w` digits.
pub open spec fn padded(v: nat, w: nat) -> Seq<u8>
    decreases w,
{
    if w == 0 {
        Seq::empty()
    } else {
        padded(v / 10, (w - 1) as nat).push(digit(v % 10))
    }
}

/// Every byte is an ASCII digit.
pub open spec fn all_digits(s: Seq<u8>) -> bool {
    forall|i: int| 0 <= i < s.len() ==> 48 <= #[trigger] s[i] <= 57
}

/// The number a string of ASCII digits spells.
pub open spec fn digits_value(s: Seq<u8>) -> nat
    decreases s.len(),
{
    if s.len() == 0 {
        0
    } else {
        digits_value(s.drop_last()) * 10 + (s.last() - 48) as nat
    }
}

/// The first header line, newline excluded.
pub open spec fn line1(version: Seq<u8>) -> Seq<u8> {
    magic() + version
}

/// The second header line, newline excluded.
pub open spec fn line2(salt_b64: Seq<u8>, nonce_b64: Seq<u8>, length: nat, offset: nat) -> Seq<
    u8,
> {
    salt_b64 + seq![46u8] + nonce_b64 + seq![46u8] + padded(length, 8) + seq![46u8] + padded(
        offset,
        8,
    )
}

/// Every byte is of the base64 alphabet.
pub open spec fn all_base64(s: Seq<u8>) -> bool {
    forall|i: int| 0 <= i < s.len() ==> is_base64_byte(#[trigger] s[i])
}

/// The whole header of a store with this version, salt, catalog nonce, catalog
/// length and catalog offset.
pub open spec fn header_bytes(
    version: Seq<u8>,
    salt: Seq<u8>,
    nonce: Seq<u8>,
    length: nat,
    offset: nat,
) -> Seq<u8> {
    line1(version) + seq![10u8] + line2(base64_of(salt), base64_of(nonce), length, offset) + seq![
        10u8,
    ]
}

proof fn lemma_padded(v: nat, w: nat)
    requires
        v < pow10(w),
    ensures
        padded(v, w).len() == w,
        all_digits(padded(v, w)),
        digits_value(padded(v, w)) == v,
    decreases w,
{
    if w > 0 {
        assert(v / 10 < pow10((w - 1) as nat)) by (nonlinear_arith)
            requires
                v < 10 * pow10((w - 1) as nat),
        ;
        lemma_padded(v / 10, (w - 1) as nat);
        let s = padded(v, w);
        assert(s.drop_last() =~= padded(v / 10, (w - 1) as nat));
        assert(v == (v / 10) * 10 + v % 10) by (nonlinear_arith);
    }
}

proof fn lemma_pow10_8()
    ensures
        pow10(8) == 100000000,
{
    reveal_with_fuel(pow10, 9);
}

/// Appends `v` in decimal, zero-padded to `width` digits.
fn push_padded(out: &mut Vec<u8>, v: usize, width: usize)
    ensures
        final(out)@ == old(out)@ + padded(v as nat, width as nat),
    decreases width,
{
    if width > 0 {
        push_padded(out, v / 10, width - 1);
        out.push(48 + (v % 10) as u8);
        proof {
            assert(final(out)@ =~= old(out)@ + padded(v as nat, width as nat)) by {
                assert(padded(v as nat, width as nat) == padded((v / 10) as nat, (width - 1) as nat).push(
                    digit((v % 10) as nat),
                ));
            }
        }
    }
}

/// Appends all of `bytes`.
pub(crate) fn push_all(out: &mut Vec<u8>, bytes: &[u8])
    ensures
        final(out)@ == old(out)@ + bytes@,
{
    let mut i: usize = 0;
    while i < bytes.len()
        invariant
            0 <= i <= bytes@.len(),
            out@ == old(out)@ + bytes@.subrange(0, i as int),
        decreases bytes@.len() - i,
    {
        out.push(bytes[i]);
        i = i + 1;
        assert(out@ =~= old(out)@ + bytes@.subrange(0, i as int));
    }
    assert(bytes@.subrange(0, bytes@.len() as int) =~= bytes@);
}

/// The two header lines, without their newlines: `clog @<version_id>` and
/// `<salt>.<nonce>.<metadata_length>.<metadata_offset>` with both numbers
/// zero-padded to 8 digits.
pub fn init(
    version_id: &[u8],
    metadata_length: usize,
    metadata_offset: usize,
    base64_salt: &[u8],
    base64_nonce: &[u8],
) -> (r: (Vec<u8>, Vec<u8>))
    requires
        metadata_length <= MAX_FIELD,
        metadata_offset <= MAX_FIELD,
    ensures
        r.0@ == line1(version_id@),
        r.1@ == line2(base64_salt@, base64_nonce@, metadata_length as nat, metadata_offset as nat),
{
    let mut first: Vec<u8> = Vec::new();
    first.push(99);
    first.push(108);
    first.push(111);
    first.push(103);
    first.push(32);
    first.push(64);
    push_all(&mut first, version_id);
    let mut second: Vec<u8> = Vec::new();
    push_all(&mut second, base64_salt);
    second.push(46);
    push_all(&mut second, base64_nonce);
    second.push(46);
    push_padded(&mut second, metadata_length, 8);
    second.push(46);
    push_padded(&mut second, metadata_offset, 8);
    proof {
        assert(first@ =~= line1(version_id@));
        assert(second@ =~= line2(
            base64_salt@,
            base64_nonce@,
            metadata_length as nat,
            metadata_offset as nat,
        ));
    }
    (first, second)
}

/// The header of a store: this library's version, the base64 of `salt` and
/// `nonce`, and the catalog's length and offset.
pub fn encode_header(salt: &[u8], nonce: &[u8], metadata_length: usize, metadata_offset: usize) -> (r:
    Vec<u8>)
    requires
        salt@.len() == SALT_LEN,
        nonce@.len() == NONCE_LEN,
        metadata_length <= MAX_FIELD,
        metadata_offset <= MAX_FIELD,
    ensures
        r@ == header_bytes(version(), salt@, nonce@, metadata_length as nat, metadata_offset as nat),
        r@.len() == HEADER_LENGTH,
        base64_of(salt@).len() == 24,
        base64_of(nonce@).len() == 16,
        all_base64(base64_of(salt@)),
        all_base64(base64_of(nonce@)),
{
    proof {
        lemma_base64(salt@);
        lemma_base64(nonce@);
    }
    let salt_b64 = encode_base64(salt);
    let nonce_b64 = encode_base64(nonce);
    let version_id = version_bytes();
    let (first, second) = init(
        version_id.as_slice(),
        metadata_length,
        metadata_offset,
        salt_b64.as_slice(),
        nonce_b64.as_slice(),
    );
    let mut out = first;
    out.push(10);
    push_all(&mut out, second.as_slice());
    out.push(10);
    proof {
        lemma_pow10_8();
        lemma_padded(metadata_length as nat, 8);
        lemma_padded(metadata_offset as nat, 8);
        assert(out@ =~= header_bytes(
            version(),
            salt@,
            nonce@,
            metadata_length as nat,
            metadata_offset as nat,
        ));
    }
    out
}

/// `h` is the header of a store with this version, salt, catalog nonce,
/// catalog length and catalog offset.
pub open spec fn is_header_of(
    h: Seq<u8>,
    version: Seq<u8>,
    salt: Seq<u8>,
    nonce: Seq<u8>,
    length: nat,
    offset: nat,
) -> bool {
    &&& h == header_bytes(version, salt, nonce, length, offset)
    &&& version.len() == 5
    &&& all_base64(base64_of(salt))
    &&& all_base64(base64_of(nonce))
    &&& salt.len() == SALT_LEN
    &&& nonce.len() == NONCE_LEN
    &&& base64_of(salt).len() == 24
    &&& base64_of(nonce).len() == 16
    &&& length <= MAX_FIELD
    &&& offset <= MAX_FIELD
}

/// The fixed bytes of a header are in place and both numbers are digits.
pub open spec fn header_shape(h: Seq<u8>) -> bool {
    &&& h.len() == HEADER_LENGTH
    &&& h.subrange(0, 6) == magic()
    &&& h[11] == 10
    &&& h[36] == 46
    &&& h[53] == 46
    &&& h[62] == 46
    &&& h[71] == 10
    &&& all_digits(h.subrange(54, 62))
    &&& all_digits(h.subrange(63, 71))
}

proof fn lemma_header_fields(
    h: Seq<u8>,
    version: Seq<u8>,
    salt: Seq<u8>,
    nonce: Seq<u8>,
    length: nat,
    offset: nat,
)
    requires
        is_header_of(h, version, salt, nonce, length, offset),
    ensures
        header_shape(h),
        h.subrange(6, 11) == version,
        h.subrange(12, 36) == base64_of(salt),
        h.subrange(37, 53) == base64_of(nonce),
        digits_value(h.subrange(54, 62)) == length,
        digits_value(h.subrange(63, 71)) == offset,
{
    lemma_pow10_8();
    lemma_padded(length, 8);
    lemma_padded(offset, 8);
    let sb = base64_of(salt);
    let nb = base64_of(nonce);
    assert(h.subrange(0, 6) =~= magic());
    assert(h.subrange(6, 11) =~= version);
    assert(h.subrange(12, 36) =~= sb);
    assert(h.subrange(37, 53) =~= nb);
    assert(h.subrange(54, 62) =~= padded(length, 8));
    assert(h.subrange(63, 71) =~= padded(offset, 8));
}

/// Whether every byte of `s[from..to]` is of the base64 alphabet.
fn all_base64_in(s: &[u8], from: usize, to: usize) -> (r: bool)
    requires
        from <= to <= s@.len(),
    ensures
        r == all_base64(s@.subrange(from as int, to as int)),
{
    let mut i: usize = from;
    while i < to
        invariant
            from <= i <= to <= s@.len(),
            forall|k: int| from <= k < i ==> is_base64_byte(#[trigger] s@[k]),
        decreases to - i,
    {
        if !is_base64(s[i]) {
            assert(s@.subrange(from as int, to as int)[i - from] == s@[i as int]);
            return false;
        }
        i = i + 1;
    }
    assert forall|k: int| 0 <= k < to - from implies is_base64_byte(
        #[trigger] s@.subrange(from as int, to as int)[k],
    ) by {
        assert(s@.subrange(from as int, to as int)[k] == s@[from + k]);
    }
    true
}

/// Whether `b` is of the base64 alphabet.
fn is_base64(b: u8) -> (r: bool)
    ensures
        r == is_base64_byte(b),
{
    (65 <= b && b <= 90) || (97 <= b && b <= 122) || (48 <= b && b <= 57) || b == 43 || b == 47
        || b == 61
}

/// The header at the start of `image` reads: its fixed bytes and digits
/// are in place, and its salt and nonce fields are the base64 of 16 and 12
/// bytes.
pub open spec fn header_fields_ok(image: Seq<u8>) -> bool {
    &&& image.len() >= HEADER_LENGTH
    &&& header_shape(image.subrange(0, HEADER_LENGTH as int))
    &&& all_base64(image.subrange(12, 36))
    &&& all_base64(image.subrange(37, 53))
    &&& exists|s: Seq<u8>| s.len() == SALT_LEN && #[trigger] base64_of(s) == image.subrange(12, 36)
    &&& exists|n: Seq<u8>| n.len() == NONCE_LEN && #[trigger] base64_of(n) == image.subrange(37, 53)
}

/// What a header says.
pub struct Header {
    /// Format version of the file.
    pub version: Vec<u8>,
    /// Salt of the catalog key.
    pub salt: Vec<u8>,
    /// Nonce the catalog is sealed under.
    pub nonce: Vec<u8>,
    /// Byte length of the stored catalog.
    pub metadata_length: usize,
    /// Absolute byte position of the stored catalog.
    pub metadata_offset: usize,
}

/// The 8-digit number at `from`, if all 8 bytes are digits.
fn parse_digits(s: &[u8], from: usize) -> (r: Option<usize>)
    requires
        from + 8 <= s.len(),
    ensures
        r is Some <==> all_digits(s@.subrange(from as int, from + 8)),
        r is Some ==> r->0 == digits_value(s@.subrange(from as int, from + 8)),
        r is Some ==> r->0 <= MAX_FIELD,
{
    let mut v: usize = 0;
    let mut i: usize = 0;
    while i < 8
        invariant
            0 <= i <= 8,
            from + 8 <= s.len(),
            all_digits(s@.subrange(from as int, from + i)),
            v == digits_value(s@.subrange(from as int, from + i)),
            v < pow10(i as nat),
            pow10(i as nat) <= 100000000,
        decreases 8 - i,
    {
        let b = s[from + i];
        if b < 48 || b > 57 {
            assert(!all_digits(s@.subrange(from as int, from + 8))) by {
                assert(s@.subrange(from as int, from + 8)[i as int] == b);
            }
            return None;
        }
        proof {
            let next = s@.subrange(from as int, from + i + 1);
            assert(next.drop_last() =~= s@.subrange(from as int, from + i));
            assert(next.last() == b);
            assert(v * 10 + (b - 48) < 10 * pow10(i as nat)) by (nonlinear_arith)
                requires
                    v < pow10(i as nat),
                    0 <= b - 48 <= 9,
            ;
            reveal_with_fuel(pow10, 9);
            assert(i < 8 ==> pow10((i + 1) as nat) <= 100000000) by {
                if i == 0 {} else if i == 1 {} else if i == 2 {} else if i == 3 {}
                else if i == 4 {} else if i == 5 {} else if i == 6 {} else {}
            }
        }
        v = v * 10 + (b - 48) as usize;
        i = i + 1;
    }
    Some(v)
}

/// Reads the header at the start of a store file.  `Format` when the file
/// is shorter than a header, a fixed byte is out of place, a number is not
/// 8 digits, the salt or nonce field holds a byte outside the base64
/// alphabet, or they are not the base64 of 16 and 12 bytes.  A header
/// written by `encode_header` (with any 5-byte version) reads back as
/// written.
pub fn parse_header(image: &[u8]) -> (r: Result<Header, ClogError>)
    ensures
        r is Err ==> r->Err_0 == ClogError::Format,
        image@.len() < HEADER_LENGTH || !header_shape(image@.subrange(0, HEADER_LENGTH as int))
            ==> r is Err,
        image@.len() >= HEADER_LENGTH && (!all_base64(image@.subrange(12, 36)) || !all_base64(
            image@.subrange(37, 53),
        )) ==> r is Err,
        header_fields_ok(image@) ==> r is Ok,
        r is Ok ==> {
            let h = r->Ok_0;
            &&& image@.len() >= HEADER_LENGTH
            &&& header_shape(image@.subrange(0, HEADER_LENGTH as int))
            &&& h.version@ == image@.subrange(6, 11)
            &&& all_base64(image@.subrange(12, 36))
            &&& all_base64(image@.subrange(37, 53))
            &&& h.metadata_length == digits_value(image@.subrange(54, 62))
            &&& h.metadata_offset == digits_value(image@.subrange(63, 71))
            &&& h.metadata_length <= MAX_FIELD
            &&& h.metadata_offset <= MAX_FIELD
            &&& h.salt@.len() == SALT_LEN
            &&& h.nonce@.len() == NONCE_LEN
        },
        forall|version: Seq<u8>, salt: Seq<u8>, nonce: Seq<u8>, length: nat, offset: nat|
            image@.len() >= HEADER_LENGTH && #[trigger] is_header_of(
                image@.subrange(0, HEADER_LENGTH as int),
                version,
                salt,
                nonce,
                length,
                offset,
            ) ==> {
                &&& r is Ok
                &&& r->Ok_0.version@ == version
                &&& r->Ok_0.salt@ == salt
                &&& r->Ok_0.nonce@ == nonce
                &&& r->Ok_0.metadata_length == length
                &&& r->Ok_0.metadata_offset == offset
            },
{
    if image.len() < HEADER_LENGTH {
        return Err(ClogError::Format);
    }
    let ghost h = image@.subrange(0, HEADER_LENGTH as int);
    proof {
        assert forall|version: Seq<u8>, salt: Seq<u8>, nonce: Seq<u8>, length: nat, offset: nat|
            #[trigger] is_header_of(h, version, salt, nonce, length, offset) implies {
                &&& header_shape(h)
                &&& h.subrange(6, 11) == version
                &&& h.subrange(12, 36) == base64_of(salt)
                &&& h.subrange(37, 53) == base64_of(nonce)
                &&& digits_value(h.subrange(54, 62)) == length
                &&& digits_value(h.subrange(63, 71)) == offset
            } by {
            lemma_header_fields(h, version, salt, nonce, length, offset);
        }
        assert(h.subrange(6, 11) =~= image@.subrange(6, 11));
        assert(h.subrange(54, 62) =~= image@.subrange(54, 62));
        assert(h.subrange(63, 71) =~= image@.subrange(63, 71));
        assert(h.subrange(12, 36) =~= image@.subrange(12, 36));
        assert(h.subrange(37, 53) =~= image@.subrange(37, 53));
    }
    if image[0] != 99 || image[1] != 108 || image[2] != 111 || image[3] != 103 || image[4] != 32
        || image[5] != 64 || image[11] != 10 || image[36] != 46 || image[53] != 46 || image[62]
        != 46 || image[71] != 10 {
        proof {
            if image[0] != 99 { assert(h.subrange(0, 6)[0] != magic()[0]); }
            if image[1] != 108 { assert(h.subrange(0, 6)[1] != magic()[1]); }
            if image[2] != 111 { assert(h.subrange(0, 6)[2] != magic()[2]); }
            if image[3] != 103 { assert(h.subrange(0, 6)[3] != magic()[3]); }
            if image[4] != 32 { assert(h.subrange(0, 6)[4] != magic()[4]); }
            if image[5] != 64 { assert(h.subrange(0, 6)[5] != magic()[5]); }
        }
        return Err(ClogError::Format);
    }
    let metadata_length = match parse_digits(image, 54) {
        None => return Err(ClogError::Format),
        Some(v) => v,
    };
    let metadata_offset = match parse_digits(image, 63) {
        None => return Err(ClogError::Format),
        Some(v) => v,
    };
    proof {
        assert(h.subrange(0, 6) =~= magic());
        assert(header_shape(h));
    }
    if !all_base64_in(image, 12, 36) || !all_base64_in(image, 37, 53) {
        return Err(ClogError::Format);
    }
    let version = slice_to_vec(slice_subrange(image, 6, 11));
    let salt = match decode_base64(slice_subrange(image, 12, 36)) {
        Err(_) => return Err(ClogError::Format),
        Ok(b) => b,
    };
    let nonce = match decode_base64(slice_subrange(image, 37, 53)) {
        Err(_) => return Err(ClogError::Format),
        Ok(b) => b,
    };
    if salt.len() != SALT_LEN || nonce.len() != NONCE_LEN {
        return Err(ClogError::Format);
    }
    Ok(Header { version, salt, nonce, metadata_length, metadata_offset })
}

} // verus!
