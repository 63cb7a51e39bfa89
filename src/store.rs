//! Whole-file images of a store: sealing the catalog and laying out
//! header, CONTENT and catalog; and opening an image again.  Every write
//! rotates the catalog nonce and re-encrypts the whole catalog.
use crate::content::{
    encrypt_and_encode_content_to_base64, parse_base64_encrypted_data, Clog, SALT_LEN,
};
use crate::crypto::{
    base64_len, base64_of, derive_key, new_nonce, pbkdf2_sha256, sealed, KDF_ROUNDS,
    MAX_PLAINTEXT, NONCE_LEN, TAG_LEN,
};
use crate::error::ClogError;
use crate::header::utils::{
    digits_value, encode_header, header_fields_ok, header_shape, is_header_of, parse_header,
    push_all, version,
};
use crate::layout::{HEADER_LENGTH, MAX_FIELD};
use vstd::prelude::*;
use vstd::slice::{slice_subrange, slice_to_vec};
use vstd::string::StringSliceAdditionalSpecFns;

verus! {

/// The key the catalog of a store with this salt is sealed under.
pub open spec fn catalog_key(password: Seq<u8>, salt: Seq<u8>) -> Seq<u8> {
    pbkdf2_sha256(password, salt, KDF_ROUNDS)
}

/// The stored catalog: the base64 of the catalog text sealed under the
/// catalog key and `nonce`.
pub open spec fn catalog_blob(password: Seq<u8>, salt: Seq<u8>, nonce: Seq<u8>, text: Seq<u8>) -> Seq<u8> {
    base64_of(sealed(catalog_key(password, salt), nonce, text))
}

/// `image` is the file of store `c` with catalog text `text` sealed under
/// `password` and `nonce`: header, CONTENT, then the catalog.
pub open spec fn is_image_of(
    image: Seq<u8>,
    c: Clog,
    password: Seq<u8>,
    text: Seq<u8>,
    nonce: Seq<u8>,
) -> bool {
    let blob = catalog_blob(password, c.salt@, nonce, text);
    &&& text.len() <= MAX_PLAINTEXT
    &&& blob.len() == base64_len(text.len() + TAG_LEN as nat)
    &&& image.len() >= HEADER_LENGTH
    &&& is_header_of(
        image.subrange(0, HEADER_LENGTH as int),
        version(),
        c.salt@,
        nonce,
        blob.len(),
        c.end() as nat,
    )
    &&& image == image.subrange(0, HEADER_LENGTH as int) + c.content@ + blob
}

/// The file of store `clog` with its catalog text sealed under a key
/// derived from `password` and the store's salt, and under `nonce`.
/// `Format` when the sealed catalog would not fit the header's length
/// field.
pub fn seal_image(clog: &Clog, password: &str, catalog_text: &[u8], nonce: &[u8]) -> (r: Result<
    Vec<u8>,
    ClogError,
>)
    requires
        clog.wf(),
        nonce@.len() == NONCE_LEN,
    ensures
        r is Ok <==> catalog_text@.len() <= MAX_FIELD && base64_len(
            catalog_text@.len() + TAG_LEN as nat,
        ) <= MAX_FIELD,
        r is Err ==> r->Err_0 == ClogError::Format,
        r is Ok ==> is_image_of(r->Ok_0@, *clog, password.spec_bytes(), catalog_text@, nonce@),
{
    if catalog_text.len() > MAX_FIELD {
        return Err(ClogError::Format);
    }
    let key = derive_key(password, clog.salt.as_slice());
    let blob = encrypt_and_encode_content_to_base64(catalog_text, key.as_slice(), nonce);
    if blob.len() > MAX_FIELD {
        return Err(ClogError::Format);
    }
    let header = encode_header(
        clog.salt.as_slice(),
        nonce,
        blob.len(),
        HEADER_LENGTH + clog.content.len(),
    );
    let mut image = header;
    push_all(&mut image, clog.content.as_slice());
    push_all(&mut image, blob.as_slice());
    proof {
        assert(image@.subrange(0, HEADER_LENGTH as int) =~= header@);
    }
    Ok(image)
}

/// Seals the catalog under a freshly drawn nonce other than
/// `previous_nonce`, the one the file was last sealed under (empty for a
/// new file): the catalog nonce changes on every write.
pub fn update_metadata_in_file(
    clog: &Clog,
    password: &str,
    catalog_text: &[u8],
    previous_nonce: &[u8],
) -> (r: Result<
    Vec<u8>,
    ClogError,
>)
    requires
        clog.wf(),
    ensures
        r is Err ==> r->Err_0 == ClogError::Format,
        r is Ok <==> catalog_text@.len() <= MAX_FIELD && base64_len(
            catalog_text@.len() + TAG_LEN as nat,
        ) <= MAX_FIELD,
        r is Ok ==> exists|nonce: Seq<u8>|
            nonce.len() == NONCE_LEN && nonce != previous_nonce@ && #[trigger] is_image_of(
                r->Ok_0@,
                *clog,
                password.spec_bytes(),
                catalog_text@,
                nonce,
            ),
{
    let nonce = new_nonce(previous_nonce);
    seal_image(clog, password, catalog_text, nonce.as_slice())
}

/// `image` is well formed: its header reads, points inside the image, and
/// the stored catalog is the base64 of some bytes.  Such a file fails to
/// open only when the catalog does not open under the password.
pub open spec fn well_formed_image(image: Seq<u8>) -> bool {
    let length = digits_value(image.subrange(54, 62));
    let offset = digits_value(image.subrange(63, 71));
    &&& header_fields_ok(image)
    &&& HEADER_LENGTH <= offset
    &&& offset + length <= image.len()
    &&& exists|b: Seq<u8>| #[trigger] base64_of(b) == image.subrange(offset as int, (offset + length) as int)
}

/// What opening a file yields: the salt, the catalog nonce, the CONTENT
/// bytes and the decrypted catalog text, which the caller turns into a
/// catalog.
pub struct Opened {
    /// Salt of the catalog key.
    pub salt: Vec<u8>,
    /// Nonce the catalog was sealed under.
    pub nonce: Vec<u8>,
    /// The CONTENT region.
    pub content: Vec<u8>,
    /// The catalog, decrypted.
    pub catalog_text: Vec<u8>,
}

/// Opens a store file with `password`: reads the header, takes CONTENT
/// and the stored catalog from where it says, and decrypts the catalog.
/// `Format` when the header is malformed, points outside the file, or the
/// catalog is not base64 (and only then); `Crypto` when the catalog does
/// not open (a wrong password, or tampering); a catalog text comes back only when the stored
/// catalog is its sealing under this password.  A file this library wrote
/// opens to what was sealed in it.
pub fn extract_metadata_from_file(image: &[u8], password: &str) -> (r: Result<Opened, ClogError>)
    ensures
        r is Err ==> r->Err_0 == ClogError::Format || r->Err_0 == ClogError::Crypto,
        image@.len() < HEADER_LENGTH || !header_shape(image@.subrange(0, HEADER_LENGTH as int))
            ==> r == Err::<Opened, ClogError>(ClogError::Format),
        well_formed_image(image@) ==> r is Ok || r == Err::<Opened, ClogError>(ClogError::Crypto),
        r is Ok ==> r->Ok_0.salt@.len() == SALT_LEN,
        r is Ok ==> r->Ok_0.nonce@.len() == NONCE_LEN,
        r is Ok ==> {
            let o = r->Ok_0;
            let at = HEADER_LENGTH + o.content@.len();
            let blob = catalog_blob(password.spec_bytes(), o.salt@, o.nonce@, o.catalog_text@);
            &&& image@.len() >= at + blob.len()
            &&& image@.subrange(at, at + blob.len()) == blob
        },
        r is Ok ==> image@.len() >= HEADER_LENGTH + r->Ok_0.content@.len(),
        r is Ok ==> r->Ok_0.content@ == image@.subrange(
            HEADER_LENGTH as int,
            HEADER_LENGTH + r->Ok_0.content@.len(),
        ),
        forall|c: Clog, password2: Seq<u8>, text: Seq<u8>, nonce: Seq<u8>|
            #[trigger] is_image_of(image@, c, password2, text, nonce) && password2
                == password.spec_bytes() && c.wf() ==> {
                &&& r is Ok
                &&& r->Ok_0.salt@ == c.salt@
                &&& r->Ok_0.nonce@ == nonce
                &&& r->Ok_0.content@ == c.content@
                &&& r->Ok_0.catalog_text@ == text
            },
{
    let header = match parse_header(image) {
        Ok(h) => h,
        Err(e) => {
            proof {
                assert forall|c: Clog, password2: Seq<u8>, text: Seq<u8>, nonce: Seq<u8>|
                    #[trigger] is_image_of(image@, c, password2, text, nonce) implies false by {
                    let blob = catalog_blob(password2, c.salt@, nonce, text);
                    assert(is_header_of(
                        image@.subrange(0, HEADER_LENGTH as int),
                        version(),
                        c.salt@,
                        nonce,
                        blob.len(),
                        c.end() as nat,
                    ));
                }
            }
            return Err(e);
        },
    };
    proof {
        assert forall|c: Clog, password2: Seq<u8>, text: Seq<u8>, nonce: Seq<u8>|
            #[trigger] is_image_of(image@, c, password2, text, nonce) && password2
                == password.spec_bytes() && c.wf() implies {
                let blob = catalog_blob(password2, c.salt@, nonce, text);
                &&& header.salt@ == c.salt@
                &&& header.nonce@ == nonce
                &&& header.metadata_offset == c.end()
                &&& header.metadata_length == blob.len()
                &&& image@.len() == c.end() + blob.len()
                &&& image@.subrange(HEADER_LENGTH as int, c.end()) == c.content@
                &&& image@.subrange(c.end(), c.end() + blob.len()) == blob
            } by {
            let blob = catalog_blob(password2, c.salt@, nonce, text);
            let h = image@.subrange(0, HEADER_LENGTH as int);
            assert(is_header_of(h, version(), c.salt@, nonce, blob.len(), c.end() as nat));
            assert(image@.subrange(HEADER_LENGTH as int, c.end()) =~= c.content@);
            assert(image@.subrange(c.end(), c.end() + blob.len()) =~= blob);
        }
    }
    if header.metadata_offset < HEADER_LENGTH || header.metadata_offset > image.len()
        || header.metadata_length > image.len() - header.metadata_offset {
        return Err(ClogError::Format);
    }
    let end = header.metadata_offset + header.metadata_length;
    let stored = slice_subrange(image, header.metadata_offset, end);
    let key = derive_key(password, header.salt.as_slice());
    let catalog_text = match parse_base64_encrypted_data(stored, key.as_slice(), header.nonce.as_slice()) {
        Ok(t) => t,
        Err(e) => return Err(e),
    };
    let content = slice_to_vec(slice_subrange(image, HEADER_LENGTH, header.metadata_offset));
    Ok(Opened { salt: header.salt, nonce: header.nonce, content, catalog_text })
}

} // verus!
