//! The key derivation pipeline: checksum validation of a candidate phrase,
//! derivation of its address, and the comparison with the target.

use std::str::FromStr;
use vstd::prelude::*;
use vstd::string::*;
use wagyu_model::ExtendedPrivateKey;

verus! {

/// Whether `bip39` accepts the phrase as an English mnemonic: known words,
/// an allowed word count and a matching checksum.
pub uninterp spec fn checksum_valid(phrase: Seq<char>) -> bool;

/// The seed that `bip39` derives from the phrase with an empty password, or
/// `None` where it refuses the phrase.
pub uninterp spec fn seed_of(phrase: Seq<char>) -> Option<Seq<u8>>;

/// The text of the Ethereum address that `wagyu_ethereum` derives from a
/// seed along the path `m/44'/60'/0'/0/0`, or `None` where it fails.
pub uninterp spec fn address_of_seed(seed: Seq<u8>) -> Option<Seq<char>>;

/// The text of the address that `wagyu_ethereum` parses from the given
/// text, in its checksum spelling, or `None` where it refuses the text.
pub uninterp spec fn normalized_address(text: Seq<char>) -> Option<Seq<char>>;

/// The characters of an optional string.
pub open spec fn text_view(text: Option<String>) -> Option<Seq<char>> {
    match text {
        Some(s) => Some(s@),
        None => None,
    }
}

/// The bytes of an optional vector.
pub open spec fn bytes_view(bytes: Option<Vec<u8>>) -> Option<Seq<u8>> {
    match bytes {
        Some(v) => Some(v@),
        None => None,
    }
}

/// The address text derived from a phrase, where every step succeeds.
pub open spec fn derived_address(phrase: Seq<char>) -> Option<Seq<char>> {
    match seed_of(phrase) {
        Some(seed) => address_of_seed(seed),
        None => None,
    }
}

/// A phrase matches when its checksum is valid and the address derived from
/// it is the target.
pub open spec fn is_match(phrase: Seq<char>, target: Seq<char>) -> bool {
    checksum_valid(phrase) && derived_address(phrase) == Some(target)
}

/// Calls `bip39::Mnemonic::validate` for the English word list. Believed of
/// it: whether it returns `Ok` depends on the phrase alone.
#[verifier::external_body]
fn validate_checksum(phrase: &str) -> (ok: bool)
    ensures
        ok == checksum_valid(phrase@),
{
    bip39::Mnemonic::validate(phrase, bip39::Language::English).is_ok()
}

/// Calls `bip39::Mnemonic::from_phrase` for the English word list and, where
/// that succeeds, `bip39::Seed::new` with an empty password, and copies the
/// seed's bytes. Believed of them: the outcome depends on the phrase alone.
#[verifier::external_body]
fn phrase_seed(phrase: &str) -> (seed: Option<Vec<u8>>)
    ensures
        bytes_view(seed) == seed_of(phrase@),
{
    match bip39::Mnemonic::from_phrase(phrase, bip39::Language::English) {
        Ok(mnemonic) => Some(bip39::Seed::new(&mnemonic, "").as_bytes().to_vec()),
        Err(_) => None,
    }
}

/// Calls `wagyu_ethereum::EthereumExtendedPrivateKey::new` with the path
/// `m/44'/60'/0'/0/0` and, where that succeeds, `to_address` on the key, and
/// writes the address out as text. Believed of them: the outcome depends on
/// the seed alone.
#[verifier::external_body]
fn seed_address(seed: &Vec<u8>) -> (address: Option<String>)
    ensures
        text_view(address) == address_of_seed(seed@),
{
    let format = wagyu_ethereum::EthereumFormat::Standard;
    let path = wagyu_ethereum::EthereumDerivationPath::Ethereum(wagyu_model::ChildIndex::Normal(0));
    let key = wagyu_ethereum::EthereumExtendedPrivateKey::<wagyu_ethereum::Mainnet>::new(
        seed.as_slice(),
        &format,
        &path,
    );
    match key {
        Ok(key) => match key.to_address(&format) {
            Ok(address) => Some(address.to_string()),
            Err(_) => None,
        },
        Err(_) => None,
    }
}

/// Calls `wagyu_ethereum::EthereumAddress::from_str` and writes the address
/// out as text. Believed of it: the outcome depends on the text alone. The
/// call cuts the text at byte positions, so it is given ASCII text only.
#[verifier::external_body]
fn checksum_spelling(text: &str) -> (address: Option<String>)
    requires
        is_ascii(text),
    ensures
        text_view(address) == normalized_address(text@),
{
    match wagyu_ethereum::EthereumAddress::from_str(text) {
        Ok(address) => Some(address.to_string()),
        Err(_) => None,
    }
}

/// The target address in the spelling in which derived addresses are
/// compared, or `None` where the text is no address.
pub fn parse_target(text: &str) -> (address: Option<String>)
    ensures
        text_view(address) == if is_ascii(text) {
            normalized_address(text@)
        } else {
            None
        },
{
    if text.is_ascii() {
        checksum_spelling(text)
    } else {
        None
    }
}

/// The address derived from a phrase, or `None` where a step of the
/// derivation fails; such a phrase matches no target.
pub fn derive_address(phrase: &str) -> (address: Option<String>)
    ensures
        text_view(address) == derived_address(phrase@),
{
    match phrase_seed(phrase) {
        Some(seed) => seed_address(&seed),
        None => None,
    }
}

/// The verdict on one candidate, given what the pipeline said of it: a match
/// takes a valid checksum and a derived address equal to the target.
pub fn judge(checksum_ok: bool, derived: &Option<String>, target: &String) -> (hit: bool)
    ensures
        hit == (checksum_ok && text_view(*derived) == Some(target@)),
{
    if !checksum_ok {
        return false;
    }
    match derived {
        Some(address) => *address == *target,
        None => false,
    }
}

/// Runs one candidate phrase through the pipeline: the checksum first, the
/// derivation only where the checksum is valid, then the comparison.
pub fn examine(phrase: &str, target: &String) -> (hit: bool)
    ensures
        hit == is_match(phrase@, target@),
{
    if !validate_checksum(phrase) {
        return judge(false, &None, target);
    }
    let derived = derive_address(phrase);
    judge(true, &derived, target)
}

} // verus!
