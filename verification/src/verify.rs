//! The signature over the downloaded update package.

use vstd::prelude::*;
use vstd::utf8::{decode_utf8, encode_utf8, valid_utf8};
use crate::args::optional;
use crate::encoding::{
    base64_bytes, base64_fault, base64_text, decode_base64, lemma_base64_bytes,
    lemma_base64_no_space, string_from_utf8, utf8_fault,
};
use crate::text::{
    all_white, concat, is_white_space, lemma_trim_front, starts_with, trim, trim_start, trimmed,
    trimmed_end, trimmed_start,
};

verus! {

/// The key that update packages are signed with.
pub const PUBLIC_KEY: &'static str = "untrusted comment: minisign public key: 35DD6AE53301ABE3
RWTjqwEz5WrdNfika/0W5/uR54TDhJNBSy2gRyvxxDefeXveXCb1a/ch";

/// The text is a minisign signature as minisign writes it, white space before
/// it aside.
pub open spec fn is_armor(raw: Seq<char>) -> bool {
    "untrusted comment"@.is_prefix_of(trimmed_start(raw))
}

/// What decoding a text as Base64 gives: its bytes, or a message.
pub open spec fn decoding(text: Seq<char>) -> Result<Seq<u8>, Seq<char>> {
    match base64_bytes(text) {
        Some(bytes) => Ok(bytes),
        None => Err(base64_fault(text)),
    }
}

/// The signature text that decoded bytes hold, or why they hold none.
pub open spec fn armor_in(decoded: Result<Seq<u8>, Seq<char>>) -> Result<Seq<char>, Seq<char>> {
    match decoded {
        Err(fault) => Err("signature is neither minisign armor nor base64: "@ + fault),
        Ok(bytes) => if valid_utf8(bytes) {
            Ok(decode_utf8(bytes))
        } else {
            Err("decoded signature is not utf-8: "@ + utf8_fault(bytes))
        },
    }
}

/// The signature text of a signature file: the file as it is, where it is a
/// minisign signature, and otherwise what its Base64 stands for.
pub open spec fn normalized(raw: Seq<char>) -> Result<Seq<char>, Seq<char>> {
    if is_armor(raw) {
        Ok(raw)
    } else {
        armor_in(decoding(trimmed(raw)))
    }
}

/// An outcome with texts stands for a specified one.
pub open spec fn text_matches(
    r: Result<String, String>,
    expected: Result<Seq<char>, Seq<char>>,
) -> bool {
    match expected {
        Ok(text) => r is Ok && r->Ok_0@ == text,
        Err(message) => r is Err && r->Err_0@ == message,
    }
}

/// An outcome without a value stands for a specified one.
pub open spec fn done_matches(r: Result<(), String>, expected: Result<(), Seq<char>>) -> bool {
    match expected {
        Ok(_) => r is Ok,
        Err(message) => r is Err && r->Err_0@ == message,
    }
}

/// The texts in an outcome.
pub open spec fn text_read(r: Result<String, String>) -> Result<Seq<char>, Seq<char>> {
    match r {
        Ok(text) => Ok(text@),
        Err(error) => Err(error@),
    }
}

/// The bytes in an outcome.
pub open spec fn bytes_read(r: Result<Vec<u8>, String>) -> Result<Seq<u8>, Seq<char>> {
    match r {
        Ok(bytes) => Ok(bytes@),
        Err(error) => Err(error@),
    }
}

/// The signature text that decoded bytes hold.
pub fn decoded_armor(decoded: Result<Vec<u8>, String>) -> (r: Result<String, String>)
    ensures
        text_matches(r, armor_in(bytes_read(decoded))),
{
    match decoded {
        Err(fault) => Err(concat("signature is neither minisign armor nor base64: ", &fault)),
        Ok(bytes) => match string_from_utf8(bytes) {
            Ok(text) => Ok(text),
            Err(fault) => Err(concat("decoded signature is not utf-8: ", &fault)),
        },
    }
}

/// Gives the text of a signature file in minisign's own form. The file may
/// hold that form, or one line with its Base64.
pub fn normalize_signature(raw: &str) -> (r: Result<String, String>)
    ensures
        text_matches(r, normalized(raw@)),
{
    if starts_with(&trim_start(raw), "untrusted comment") {
        return Ok(raw.to_owned());
    }
    let decoded = decode_base64(&trim(raw));
    proof {
        if decoded is Ok {
            lemma_base64_bytes(decoded->Ok_0@);
        }
    }
    decoded_armor(decoded)
}

/// Why `minisign_verify` does not accept a text as a public key, if it does
/// not.
pub uninterp spec fn key_fault(text: Seq<char>) -> Option<Seq<char>>;

/// Why `minisign_verify` does not accept a text as a signature, if it does not.
pub uninterp spec fn signature_fault(text: Seq<char>) -> Option<Seq<char>>;

/// Why `minisign_verify` does not accept a signature over some data, if it does
/// not.
pub uninterp spec fn mismatch(
    public_key: Seq<char>,
    signature: Seq<char>,
    data: Seq<u8>,
    allow_legacy: bool,
) -> Option<Seq<char>>;

/// Reads a public key with `minisign_verify::PublicKey::decode`.
///
/// Not proved here: whether the call fails, and the message of its error,
/// depend on the text alone.
#[verifier::external_body]
fn check_key(text: &str) -> (r: Result<(), String>)
    ensures
        match r {
            Ok(_) => key_fault(text@) is None,
            Err(fault) => key_fault(text@) == Some(fault@),
        },
{
    minisign_verify::PublicKey::decode(text).map(|_| ()).map_err(|e| e.to_string())
}

/// Reads a signature with `minisign_verify::Signature::decode`.
///
/// Not proved here: whether the call fails, and the message of its error,
/// depend on the text alone.
#[verifier::external_body]
fn check_signature(text: &str) -> (r: Result<(), String>)
    ensures
        match r {
            Ok(_) => signature_fault(text@) is None,
            Err(fault) => signature_fault(text@) == Some(fault@),
        },
{
    minisign_verify::Signature::decode(text).map(|_| ()).map_err(|e| e.to_string())
}

/// Verifies data with `minisign_verify::PublicKey::verify`, under a key and
/// against a signature that are read from their texts.
///
/// Not proved here: whether the call fails, and the message of its error,
/// depend on the key, the signature, the data and the flag alone.
#[verifier::external_body]
fn check_data(public_key: &str, signature: &str, data: &[u8], allow_legacy: bool) -> (r:
    Result<(), String>)
    requires
        key_fault(public_key@) is None,
        signature_fault(signature@) is None,
    ensures
        match r {
            Ok(_) => mismatch(public_key@, signature@, data@, allow_legacy) is None,
            Err(fault) => mismatch(public_key@, signature@, data@, allow_legacy) == Some(fault@),
        },
{
    let key = minisign_verify::PublicKey::decode(public_key).unwrap();
    let signature = minisign_verify::Signature::decode(signature).unwrap();
    key.verify(data, &signature, allow_legacy).map_err(|e| e.to_string())
}

/// What is wrong in the steps of verifying a package: reading the signature
/// file, finding a signature in it, reading the public key and the signature,
/// reading the package, and holding the signature to the package.
pub struct Findings<S> {
    pub signature_file: Option<S>,
    pub armor: Option<S>,
    pub key: Option<S>,
    pub signature: Option<S>,
    pub package_file: Option<S>,
    pub mismatch: Option<S>,
}

impl View for Findings<String> {
    type V = Findings<Seq<char>>;

    open spec fn view(&self) -> Findings<Seq<char>> {
        Findings {
            signature_file: optional(self.signature_file),
            armor: optional(self.armor),
            key: optional(self.key),
            signature: optional(self.signature),
            package_file: optional(self.package_file),
            mismatch: optional(self.mismatch),
        }
    }
}

/// The verdict over a package: the first thing that was found wrong, in the
/// order of the steps.
pub open spec fn verdict(
    package: Seq<char>,
    signature: Seq<char>,
    found: Findings<Seq<char>>,
) -> Result<(), Seq<char>> {
    if let Some(error) = found.signature_file {
        Err("cannot read signature "@ + signature + ": "@ + error)
    } else if let Some(message) = found.armor {
        Err(message)
    } else if let Some(fault) = found.key {
        Err("embedded public key invalid: "@ + fault)
    } else if let Some(fault) = found.signature {
        Err("signature malformed: "@ + fault)
    } else if let Some(error) = found.package_file {
        Err("cannot read package "@ + package + ": "@ + error)
    } else if let Some(fault) = found.mismatch {
        Err("minisign verify: "@ + fault)
    } else {
        Ok(())
    }
}

/// What is wrong with a signature file and a package, as they were read.
pub open spec fn findings(
    signature_file: Result<Seq<char>, Seq<char>>,
    package_file: Result<Seq<u8>, Seq<char>>,
    public_key: Seq<char>,
) -> Findings<Seq<char>> {
    let armor = match signature_file {
        Ok(raw) => Some(normalized(raw)),
        Err(_) => None,
    };
    Findings {
        signature_file: match signature_file {
            Ok(_) => None,
            Err(error) => Some(error),
        },
        armor: match armor {
            Some(Err(message)) => Some(message),
            _ => None,
        },
        key: key_fault(public_key),
        signature: match armor {
            Some(Ok(text)) => signature_fault(text),
            _ => None,
        },
        package_file: match package_file {
            Ok(_) => None,
            Err(error) => Some(error),
        },
        mismatch: match (armor, package_file) {
            (Some(Ok(text)), Ok(data)) => mismatch(public_key, text, data, false),
            _ => None,
        },
    }
}

/// The verdict over a package, from what was found wrong.
pub fn verdict_of(package: &str, signature: &str, found: Findings<String>) -> (r: Result<
    (),
    String,
>)
    ensures
        done_matches(r, verdict(package@, signature@, found@)),
{
    if let Some(error) = found.signature_file {
        let mut message = concat("cannot read signature ", signature);
        message.append(": ");
        message.append(&error);
        Err(message)
    } else if let Some(message) = found.armor {
        Err(message)
    } else if let Some(fault) = found.key {
        Err(concat("embedded public key invalid: ", &fault))
    } else if let Some(fault) = found.signature {
        Err(concat("signature malformed: ", &fault))
    } else if let Some(error) = found.package_file {
        let mut message = concat("cannot read package ", package);
        message.append(": ");
        message.append(&error);
        Err(message)
    } else if let Some(fault) = found.mismatch {
        Err(concat("minisign verify: ", &fault))
    } else {
        Ok(())
    }
}

/// Decides whether a package is the one that was signed. `package` and
/// `signature` are the paths of the two files, `package_file` and
/// `signature_file` what reading them gave.
pub fn verify_package(
    package: &str,
    signature: &str,
    signature_file: Result<String, String>,
    package_file: Result<Vec<u8>, String>,
    public_key: &str,
) -> (r: Result<(), String>)
    ensures
        done_matches(
            r,
            verdict(
                package@,
                signature@,
                findings(text_read(signature_file), bytes_read(package_file), public_key@),
            ),
        ),
{
    let mut found = Findings {
        signature_file: None,
        armor: None,
        key: None,
        signature: None,
        package_file: None,
        mismatch: None,
    };
    match signature_file {
        Err(error) => {
            found.signature_file = Some(error);
        },
        Ok(raw) => match normalize_signature(&raw) {
            Err(message) => {
                found.armor = Some(message);
            },
            Ok(text) => if let Err(fault) = check_key(public_key) {
                found.key = Some(fault);
            } else if let Err(fault) = check_signature(&text) {
                found.signature = Some(fault);
            } else {
                match package_file {
                    Err(error) => {
                        found.package_file = Some(error);
                    },
                    Ok(data) => if let Err(fault) = check_data(
                        public_key,
                        &text,
                        data.as_slice(),
                        false,
                    ) {
                        found.mismatch = Some(fault);
                    },
                }
            },
        },
    }
    verdict_of(package, signature, found)
}

/// Trimming the end of a text keeps every prefix that does not end in white
/// space.
proof fn lemma_trimmed_end_keeps(s: Seq<char>, prefix: Seq<char>)
    requires
        prefix.is_prefix_of(s),
        prefix.len() > 0,
        !is_white_space(prefix.last()),
    ensures
        prefix.is_prefix_of(trimmed_end(s)),
    decreases s.len(),
{
    if is_white_space(s.last()) {
        assert(prefix.len() < s.len()) by {
            if prefix.len() == s.len() {
                assert(prefix =~= s);
            }
        }
        assert(prefix.is_prefix_of(s.drop_last())) by {
            assert(s.drop_last().subrange(0, prefix.len() as int) =~= s.subrange(
                0,
                prefix.len() as int,
            ));
        }
        lemma_trimmed_end_keeps(s.drop_last(), prefix);
    }
}

/// A text without white space stays as it is when it is trimmed.
proof fn lemma_trimmed_solid(s: Seq<char>)
    requires
        forall|i: int| 0 <= i < s.len() ==> !is_white_space(#[trigger] s[i]),
    ensures
        trimmed(s) == s,
{
}

/// A signature file that holds the Base64 of a text, with or without white
/// space around it, is read as that text.
pub proof fn law_base64_file(raw: Seq<char>, armor: Seq<char>)
    requires
        trimmed(raw) == base64_text(encode_utf8(armor)),
    ensures
        normalized(raw) == Ok::<Seq<char>, Seq<char>>(armor),
{
    let bytes = encode_utf8(armor);
    lemma_base64_no_space(bytes);
    lemma_base64_bytes(bytes);
    vstd::utf8::encode_utf8_valid_utf8(armor);
    vstd::utf8::encode_utf8_decode_utf8(armor);
    if is_armor(raw) {
        let mark = "untrusted comment"@;
        reveal_strlit("untrusted comment");
        assert(mark.len() == 17 && mark[16] == 't' && mark[9] == ' ');
        lemma_trimmed_end_keeps(trimmed_start(raw), mark);
        let text = base64_text(bytes);
        assert(text[9] == text.subrange(0, 17)[9]);
        assert(false);
    }
}

/// Base64 text as such is read as what it encodes.
pub proof fn law_base64_line(armor: Seq<char>)
    ensures
        normalized(base64_text(encode_utf8(armor))) == Ok::<Seq<char>, Seq<char>>(armor),
{
    lemma_base64_no_space(encode_utf8(armor));
    lemma_trimmed_solid(base64_text(encode_utf8(armor)));
    law_base64_file(base64_text(encode_utf8(armor)), armor);
}

/// A minisign signature and the Base64 of it, with or without white space
/// around it, lead to the same verdict over every package.
pub proof fn law_either_form(
    armor: Seq<char>,
    raw: Seq<char>,
    package: Seq<char>,
    signature: Seq<char>,
    package_file: Result<Seq<u8>, Seq<char>>,
    public_key: Seq<char>,
)
    requires
        is_armor(armor),
        trimmed(raw) == base64_text(encode_utf8(armor)),
    ensures
        verdict(package, signature, findings(Ok(raw), package_file, public_key)) == verdict(
            package,
            signature,
            findings(Ok(armor), package_file, public_key),
        ),
{
    law_base64_file(raw, armor);
}

/// A package is accepted exactly where both files could be read, the signature
/// file holds a signature, key and signature are well formed, and the signature
/// is one over the package under the key, in the current form only.
pub proof fn law_accepted(
    package: Seq<char>,
    signature: Seq<char>,
    signature_file: Result<Seq<char>, Seq<char>>,
    package_file: Result<Seq<u8>, Seq<char>>,
    public_key: Seq<char>,
)
    ensures
        verdict(package, signature, findings(signature_file, package_file, public_key)) is Ok <==> {
            &&& signature_file is Ok
            &&& normalized(signature_file->Ok_0) is Ok
            &&& key_fault(public_key) is None
            &&& signature_fault(normalized(signature_file->Ok_0)->Ok_0) is None
            &&& package_file is Ok
            &&& mismatch(
                public_key,
                normalized(signature_file->Ok_0)->Ok_0,
                package_file->Ok_0,
                false,
            ) is None
        },
{
}

/// Text that starts as minisign starts a signature, white space before it aside, is
/// taken as it is, whatever comes behind.
pub proof fn law_armor_is_kept(before: Seq<char>, rest: Seq<char>)
    requires
        all_white(before),
    ensures
        normalized(before + "untrusted comment"@ + rest) == Ok::<Seq<char>, Seq<char>>(
            before + "untrusted comment"@ + rest,
        ),
{
    let mark = "untrusted comment"@;
    let text = mark + rest;
    let raw = before + mark + rest;
    reveal_strlit("untrusted comment");
    assert(mark.len() == 17 && mark[0] == 'u');
    assert(text[0] == 'u');
    lemma_trim_front(before, text);
    assert(before + text =~= raw);
    assert(text.subrange(0, 17) =~= mark);
}

/// Text that does not start as minisign starts a signature is a signature file only
/// where it is the Base64 of UTF-8 text, white space around it aside.
pub proof fn law_other_text_is_refused(raw: Seq<char>)
    requires
        !"untrusted comment"@.is_prefix_of(trimmed_start(raw)),
    ensures
        normalized(raw) is Ok <==> exists|bytes: Seq<u8>| #[trigger]
            base64_text(bytes) == trimmed(raw) && valid_utf8(bytes),
        (forall|bytes: Seq<u8>| #[trigger] base64_text(bytes) != trimmed(raw)) ==> normalized(raw)
            == Err::<Seq<char>, Seq<char>>(
            "signature is neither minisign armor nor base64: "@ + base64_fault(trimmed(raw)),
        ),
        forall|bytes: Seq<u8>| #[trigger]
            base64_text(bytes) == trimmed(raw) && !valid_utf8(bytes) ==> normalized(raw) == Err::<
                Seq<char>,
                Seq<char>,
            >("decoded signature is not utf-8: "@ + utf8_fault(bytes)),
{
    assert forall|bytes: Seq<u8>| #[trigger] base64_text(bytes) == trimmed(raw) implies base64_bytes(
        trimmed(raw),
    ) == Some(bytes) by {
        lemma_base64_bytes(bytes);
    }
}

/// Why a package is refused: the first thing that goes wrong is told, whatever else is
/// wrong. The package counts only once key and signature are well formed.
pub proof fn law_refusal_tells_the_first_fault(
    package: Seq<char>,
    signature: Seq<char>,
    error: Seq<char>,
    raw: Seq<char>,
    package_file: Result<Seq<u8>, Seq<char>>,
    public_key: Seq<char>,
)
    ensures
        verdict(package, signature, findings(Err(error), package_file, public_key)) == Err::<(), _>(
            "cannot read signature "@ + signature + ": "@ + error,
        ),
        ({
            let r = verdict(package, signature, findings(Ok(raw), package_file, public_key));
            match normalized(raw) {
                Err(message) => r == Err::<(), _>(message),
                Ok(text) => if key_fault(public_key) is Some {
                    r == Err::<(), _>(
                        "embedded public key invalid: "@ + key_fault(public_key)->0,
                    )
                } else if signature_fault(text) is Some {
                    r == Err::<(), _>("signature malformed: "@ + signature_fault(text)->0)
                } else {
                    match package_file {
                        Err(error) => r == Err::<(), _>(
                            "cannot read package "@ + package + ": "@ + error,
                        ),
                        Ok(data) => match mismatch(public_key, text, data, false) {
                            Some(fault) => r == Err::<(), _>("minisign verify: "@ + fault),
                            None => r is Ok,
                        },
                    }
                },
            }
        }),
{
}

} // verus!
