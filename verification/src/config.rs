//! Configuration: the raw values of a configuration source and the decoded
//! runtime configuration built from them.

use base64::{DecodeError, Engine};
use vstd::prelude::*;

use crate::text::push_char;

verus! {

// ---------------------------------------------------------------------------
// The outside base64 decoder
// ---------------------------------------------------------------------------

/// Why base64 text could not be decoded: the failures of the `base64`
/// crate's `DecodeError`, one for one.
#[derive(Debug)]
pub enum Base64Fault {
    /// A byte outside the alphabet, or misplaced padding: its offset and value.
    InvalidByte(usize, u8),
    /// The number of symbols is invalid.
    InvalidLength(usize),
    /// The last symbol has bits set that would be discarded.
    InvalidLastSymbol { offset: usize, symbol: u8, symbol_value: u8 },
    /// The padding is missing or wrong.
    InvalidPadding,
}

/// What `base64::engine::general_purpose::STANDARD.decode` makes of a text:
/// the decoded bytes, or why the text is not canonical standard-alphabet
/// base64 with padding.
pub uninterp spec fn base64_standard_decode(text: Seq<char>) -> Result<Seq<u8>, Base64Fault>;

/// `base64::engine::general_purpose::STANDARD.decode` on the UTF-8 bytes of
/// `text`. Claimed: the result is `base64_standard_decode` of the text, its
/// error converted variant by variant. How the decoding works is not stated
/// here; it is the `base64` crate's.
#[verifier::external_body]
fn decode_base64(text: &str) -> (decoded: Result<Vec<u8>, Base64Fault>)
    ensures
        match decoded {
            Ok(bytes) => base64_standard_decode(text@) == Ok::<Seq<u8>, Base64Fault>(bytes@),
            Err(f) => base64_standard_decode(text@) == Err::<Seq<u8>, Base64Fault>(f),
        },
{
    match base64::engine::general_purpose::STANDARD.decode(text) {
        Ok(bytes) => Ok(bytes),
        Err(DecodeError::InvalidByte(at, byte)) => Err(Base64Fault::InvalidByte(at, byte)),
        Err(DecodeError::InvalidLength(n)) => Err(Base64Fault::InvalidLength(n)),
        Err(DecodeError::InvalidLastSymbol { offset, symbol, symbol_value }) => Err(Base64Fault::InvalidLastSymbol { offset, symbol, symbol_value }),
        Err(DecodeError::InvalidPadding) => Err(Base64Fault::InvalidPadding),
    }
}

// ---------------------------------------------------------------------------
// Splitting the extension list
// ---------------------------------------------------------------------------

/// The pieces of `s` between the occurrences of `sep`, in order, as
/// `str::split` yields them: `n` separators give `n + 1` pieces, empty pieces
/// included.
pub open spec fn split_on(s: Seq<char>, sep: char) -> Seq<Seq<char>>
    decreases s.len(),
{
    if s.len() == 0 {
        seq![Seq::<char>::empty()]
    } else {
        let pieces = split_on(s.drop_last(), sep);
        if s.last() == sep {
            pieces.push(Seq::<char>::empty())
        } else {
            pieces.update(pieces.len() - 1, pieces.last().push(s.last()))
        }
    }
}

/// The pieces joined again, with `sep` between each two neighbours.
pub open spec fn join_with(pieces: Seq<Seq<char>>, sep: char) -> Seq<char>
    decreases pieces.len(),
{
    if pieces.len() == 0 {
        Seq::<char>::empty()
    } else if pieces.len() == 1 {
        pieces[0]
    } else {
        join_with(pieces.drop_last(), sep).push(sep) + pieces.last()
    }
}

/// Splitting never yields an empty list of pieces.
pub proof fn lemma_split_on_nonempty(s: Seq<char>, sep: char)
    ensures
        split_on(s, sep).len() >= 1,
    decreases s.len(),
{
    if s.len() > 0 {
        lemma_split_on_nonempty(s.drop_last(), sep);
    }
}

proof fn lemma_join_extend_last(pieces: Seq<Seq<char>>, sep: char, c: char)
    requires
        pieces.len() >= 1,
    ensures
        join_with(pieces.update(pieces.len() - 1, pieces.last().push(c)), sep)
            == join_with(pieces, sep).push(c),
{
    let updated = pieces.update(pieces.len() - 1, pieces.last().push(c));
    if pieces.len() == 1 {
        assert(updated[0] == pieces[0].push(c));
    } else {
        assert(updated.drop_last() == pieces.drop_last());
        assert(updated.last() == pieces.last().push(c));
        assert(join_with(updated, sep) == join_with(pieces.drop_last(), sep).push(sep) + pieces.last().push(c));
        assert(join_with(pieces.drop_last(), sep).push(sep) + pieces.last().push(c)
            =~= (join_with(pieces.drop_last(), sep).push(sep) + pieces.last()).push(c));
    }
}

/// Splitting on a separator loses nothing: joining the pieces with the same
/// separator gives back the text, and no piece holds the separator.
pub proof fn lemma_split_then_join(s: Seq<char>, sep: char)
    ensures
        join_with(split_on(s, sep), sep) == s,
        forall|i: int| 0 <= i < split_on(s, sep).len() ==> !(#[trigger] split_on(s, sep)[i]).contains(sep),
    decreases s.len(),
{
    if s.len() == 0 {
        assert(join_with(split_on(s, sep), sep) =~= s);
        assert forall|i: int| 0 <= i < split_on(s, sep).len() implies !(#[trigger] split_on(s, sep)[i]).contains(sep) by {
            assert(split_on(s, sep)[i] =~= Seq::<char>::empty());
        }
    } else {
        let t = s.drop_last();
        let c = s.last();
        lemma_split_then_join(t, sep);
        lemma_split_on_nonempty(t, sep);
        let pieces = split_on(t, sep);
        if c == sep {
            let grown = pieces.push(Seq::<char>::empty());
            assert(grown.drop_last() == pieces);
            assert(join_with(grown, sep) =~= join_with(pieces, sep).push(sep));
            assert(s =~= t.push(c));
            assert forall|i: int| 0 <= i < grown.len() implies !(#[trigger] grown[i]).contains(sep) by {
                if i == grown.len() - 1 {
                    assert(grown[i] =~= Seq::<char>::empty());
                } else {
                    assert(grown[i] == pieces[i]);
                }
            }
        } else {
            lemma_join_extend_last(pieces, sep, c);
            assert(s =~= t.push(c));
            let grown = pieces.update(pieces.len() - 1, pieces.last().push(c));
            assert forall|i: int| 0 <= i < grown.len() implies !(#[trigger] grown[i]).contains(sep) by {
                if i == grown.len() - 1 {
                    let last = pieces.last();
                    assert(!last.contains(sep));
                    assert forall|j: int| 0 <= j < grown[i].len() implies grown[i][j] != sep by {
                        if j < last.len() {
                            assert(grown[i][j] == last[j]);
                        }
                    }
                } else {
                    assert(grown[i] == pieces[i]);
                }
            }
        }
    }
}

/// Splits `text` at every `;`, as `text.split(';')` does, keeping empty
/// pieces.
pub fn split_extensions(text: &str) -> (pieces: Vec<String>)
    ensures
        pieces@.map_values(|p: String| p@) == split_on(text@, ';'),
{
    let mut pieces: Vec<String> = Vec::new();
    let mut current = String::new();
    let ghost mut seen: Seq<char> = Seq::empty();
    for c in it: text.chars()
        invariant
            it.seq() == text@,
            seen == it.seq().take(it.index() as int),
            pieces@.map_values(|p: String| p@).push(current@) == split_on(seen, ';'),
    {
        proof {
            lemma_split_on_nonempty(seen, ';');
        }
        let ghost before = seen;
        proof {
            seen = seen.push(c);
            assert(seen.drop_last() == before);
        }
        if c == ';' {
            let mut done = String::new();
            std::mem::swap(&mut current, &mut done);
            pieces.push(done);
            assert(pieces@.map_values(|p: String| p@).push(current@)
                =~= split_on(before, ';').push(Seq::<char>::empty()));
        } else {
            push_char(&mut current, c);
            assert(pieces@.map_values(|p: String| p@).push(current@)
                =~= split_on(before, ';').update(split_on(before, ';').len() - 1, split_on(before, ';').last().push(c)));
        }
    }
    pieces.push(current);
    assert(seen =~= text@);
    assert(pieces@.map_values(|p: String| p@) =~= split_on(text@, ';'));
    pieces
}

// ---------------------------------------------------------------------------
// Raw and decoded configuration
// ---------------------------------------------------------------------------

/// The raw values of a configuration source, all as text.
///
/// The three tables are base64 text; `decrypted_extensions` lists the file
/// extensions that are stored unencrypted, separated by `;` (as in
/// `"png;jpg;xml"`). An empty value means "not configured".
#[derive(Debug)]
pub struct ConfigFile {
    /// Key used to encrypt and decrypt resource files (base64).
    pub resource_encode_key: String,
    /// Decryption table used to resolve hashed file names (base64).
    pub dec_table: String,
    /// Reference table used when decoding file names (base64).
    pub ref_table: String,
    /// Extensions of the files that are not encrypted, separated by `;`.
    pub decrypted_extensions: String,
}

/// The abstract value of a [`ConfigFile`]: its four texts.
pub struct ConfigFileView {
    pub resource_encode_key: Seq<char>,
    pub dec_table: Seq<char>,
    pub ref_table: Seq<char>,
    pub decrypted_extensions: Seq<char>,
}

impl View for ConfigFile {
    type V = ConfigFileView;

    open spec fn view(&self) -> ConfigFileView {
        ConfigFileView {
            resource_encode_key: self.resource_encode_key@,
            dec_table: self.dec_table@,
            ref_table: self.ref_table@,
            decrypted_extensions: self.decrypted_extensions@,
        }
    }
}

/// The runtime configuration: decoded keys and tables, and the list of
/// extensions that are stored unencrypted. Each field is `None` where the
/// configuration leaves it unset.
#[derive(Debug)]
pub struct AppConfig {
    pub resource_encryption_key: Option<Vec<u8>>,
    pub dec_table: Option<Vec<u8>>,
    pub ref_table: Option<Vec<u8>>,
    pub decrypted_extensions: Option<Vec<String>>,
}

/// The abstract value of an [`AppConfig`].
pub struct AppConfigView {
    pub resource_encryption_key: Option<Seq<u8>>,
    pub dec_table: Option<Seq<u8>>,
    pub ref_table: Option<Seq<u8>>,
    pub decrypted_extensions: Option<Seq<Seq<char>>>,
}

/// The bytes of an optional byte vector.
pub open spec fn opt_bytes(v: Option<Vec<u8>>) -> Option<Seq<u8>> {
    match v {
        Some(b) => Some(b@),
        None => None,
    }
}

/// The texts of an optional list of strings.
pub open spec fn opt_texts(v: Option<Vec<String>>) -> Option<Seq<Seq<char>>> {
    match v {
        Some(l) => Some(l@.map_values(|t: String| t@)),
        None => None,
    }
}

impl View for AppConfig {
    type V = AppConfigView;

    open spec fn view(&self) -> AppConfigView {
        AppConfigView {
            resource_encryption_key: opt_bytes(self.resource_encryption_key),
            dec_table: opt_bytes(self.dec_table),
            ref_table: opt_bytes(self.ref_table),
            decrypted_extensions: opt_texts(self.decrypted_extensions),
        }
    }
}

impl AppConfigView {
    /// The configuration with nothing set.
    pub open spec fn empty() -> AppConfigView {
        AppConfigView {
            resource_encryption_key: None,
            dec_table: None,
            ref_table: None,
            decrypted_extensions: None,
        }
    }
}

impl Default for AppConfig {
    /// The configuration with nothing set.
    fn default() -> (config: AppConfig)
        ensures
            config@ == AppConfigView::empty(),
    {
        AppConfig {
            resource_encryption_key: None,
            dec_table: None,
            ref_table: None,
            decrypted_extensions: None,
        }
    }
}

/// The base64 field of a configuration that could not be decoded.
#[derive(Debug)]
pub enum ConfigField {
    ResourceEncodeKey,
    DecTable,
    RefTable,
}

/// Why a configuration could not be turned into an [`AppConfig`].
#[derive(Debug)]
pub enum ConfigError {
    /// The field holds text that is not valid base64, for the reason given.
    InvalidBase64(ConfigField, Base64Fault),
}

/// A base64 field decoded: `Ok(None)` for an empty text (unset),
/// `Ok(Some(bytes))` for valid base64, and why it is not otherwise.
pub open spec fn decoded_field(text: Seq<char>) -> Result<Option<Seq<u8>>, Base64Fault> {
    if text.len() == 0 {
        Ok(None)
    } else {
        match base64_standard_decode(text) {
            Ok(bytes) => Ok(Some(bytes)),
            Err(f) => Err(f),
        }
    }
}

/// The runtime configuration that a raw configuration stands for: each
/// non-empty base64 field decoded, checked in the order key, decryption
/// table, reference table, the first undecodable one reported; a non-empty
/// extension list split at `;`.
pub open spec fn spec_from_config_file(raw: ConfigFileView) -> Result<AppConfigView, ConfigError> {
    match (decoded_field(raw.resource_encode_key), decoded_field(raw.dec_table), decoded_field(raw.ref_table)) {
        (Err(f), _, _) => Err(ConfigError::InvalidBase64(ConfigField::ResourceEncodeKey, f)),
        (Ok(_), Err(f), _) => Err(ConfigError::InvalidBase64(ConfigField::DecTable, f)),
        (Ok(_), Ok(_), Err(f)) => Err(ConfigError::InvalidBase64(ConfigField::RefTable, f)),
        (Ok(key), Ok(dec), Ok(reference)) => Ok(AppConfigView {
            resource_encryption_key: key,
            dec_table: dec,
            ref_table: reference,
            decrypted_extensions: if raw.decrypted_extensions.len() == 0 {
                None
            } else {
                Some(split_on(raw.decrypted_extensions, ';'))
            },
        }),
    }
}

/// Each field of a decoded configuration comes from its own raw text and no
/// other: a key or table is unset exactly when its text is empty and is
/// otherwise the base64 decoding of that text; the list of unencrypted
/// extensions is unset exactly when its text is empty, and is otherwise the
/// pieces of that text between the `;`s: joined again with `;` they give the
/// text back, and none of them holds a `;`.
pub proof fn lemma_decoded_fields(raw: ConfigFileView)
    requires
        spec_from_config_file(raw) is Ok,
    ensures
        ({
            let c = spec_from_config_file(raw)->Ok_0;
            &&& (c.decrypted_extensions is None <==> raw.decrypted_extensions.len() == 0)
            &&& (c.decrypted_extensions matches Some(list) ==> {
                &&& join_with(list, ';') == raw.decrypted_extensions
                &&& forall|i: int| 0 <= i < list.len() ==> !(#[trigger] list[i]).contains(';')
            })
            &&& (c.resource_encryption_key is None <==> raw.resource_encode_key.len() == 0)
            &&& (c.resource_encryption_key matches Some(k) ==> base64_standard_decode(raw.resource_encode_key)
                == Ok::<Seq<u8>, Base64Fault>(k))
            &&& (c.dec_table is None <==> raw.dec_table.len() == 0)
            &&& (c.dec_table matches Some(t) ==> base64_standard_decode(raw.dec_table)
                == Ok::<Seq<u8>, Base64Fault>(t))
            &&& (c.ref_table is None <==> raw.ref_table.len() == 0)
            &&& (c.ref_table matches Some(t) ==> base64_standard_decode(raw.ref_table)
                == Ok::<Seq<u8>, Base64Fault>(t))
        }),
{
    lemma_split_then_join(raw.decrypted_extensions, ';');
}

/// Two raw configurations with the same extension text give, when both
/// decode, the same list of unencrypted extensions, whatever their keys and
/// tables.
pub proof fn lemma_extensions_follow_their_text(raw1: ConfigFileView, raw2: ConfigFileView)
    requires
        spec_from_config_file(raw1) is Ok,
        spec_from_config_file(raw2) is Ok,
        raw1.decrypted_extensions == raw2.decrypted_extensions,
    ensures
        spec_from_config_file(raw1)->Ok_0.decrypted_extensions == spec_from_config_file(raw2)->Ok_0.decrypted_extensions,
{
    lemma_decoded_fields(raw1);
    lemma_decoded_fields(raw2);
    let a = spec_from_config_file(raw1)->Ok_0.decrypted_extensions;
    let b = spec_from_config_file(raw2)->Ok_0.decrypted_extensions;
    if a is Some {
        lemma_split_unique(a->0, b->0, ';');
    }
}

/// A list of pieces without the separator is determined by its join.
proof fn lemma_split_unique(a: Seq<Seq<char>>, b: Seq<Seq<char>>, sep: char)
    requires
        a.len() >= 1,
        b.len() >= 1,
        join_with(a, sep) == join_with(b, sep),
        forall|i: int| 0 <= i < a.len() ==> !(#[trigger] a[i]).contains(sep),
        forall|i: int| 0 <= i < b.len() ==> !(#[trigger] b[i]).contains(sep),
    ensures
        a == b,
{
    lemma_join_is_split(a, sep);
    lemma_join_is_split(b, sep);
}

/// Splitting the join of pieces without the separator gives the pieces back.
proof fn lemma_join_is_split(a: Seq<Seq<char>>, sep: char)
    requires
        a.len() >= 1,
        forall|i: int| 0 <= i < a.len() ==> !(#[trigger] a[i]).contains(sep),
    ensures
        split_on(join_with(a, sep), sep) == a,
    decreases a.len(),
{
    if a.len() == 1 {
        lemma_split_plain(a[0], sep);
    } else {
        let rest = a.drop_last();
        assert forall|i: int| 0 <= i < rest.len() implies !(#[trigger] rest[i]).contains(sep) by {
            assert(rest[i] == a[i]);
        }
        lemma_join_is_split(rest, sep);
        assert(!a[a.len() - 1].contains(sep));
        lemma_split_append(join_with(rest, sep), a.last(), sep);
        assert(rest.push(a.last()) == a);
    }
}

/// A text without the separator splits into itself alone.
proof fn lemma_split_plain(t: Seq<char>, sep: char)
    requires
        !t.contains(sep),
    ensures
        split_on(t, sep) == seq![t],
    decreases t.len(),
{
    if t.len() > 0 {
        let r = t.drop_last();
        assert(!r.contains(sep)) by {
            if r.contains(sep) {
                let k: int = choose|k: int| 0 <= k < r.len() && r[k] == sep;
                assert(t[k] == sep);
            }
        }
        lemma_split_plain(r, sep);
        assert(t[t.len() - 1] != sep);
        assert(r.push(t.last()) == t);
        assert(t.drop_last() == r);
        assert(split_on(t, sep) == seq![r].update(0, r.push(t.last())));
        assert(split_on(t, sep) =~= seq![t]);
    } else {
        assert(t =~= Seq::<char>::empty());
        assert(split_on(t, sep) =~= seq![t]);
    }
}

/// Appending a separator and a piece without it adds that piece.
proof fn lemma_split_append(s: Seq<char>, t: Seq<char>, sep: char)
    requires
        !t.contains(sep),
    ensures
        split_on(s.push(sep) + t, sep) == split_on(s, sep).push(t),
    decreases t.len(),
{
    let x = s.push(sep) + t;
    if t.len() == 0 {
        assert(x =~= s.push(sep));
        assert(x.drop_last() =~= s);
        assert(t =~= Seq::<char>::empty());
    } else {
        let r = t.drop_last();
        assert(!r.contains(sep)) by {
            if r.contains(sep) {
                let k: int = choose|k: int| 0 <= k < r.len() && r[k] == sep;
                assert(t[k] == sep);
            }
        }
        lemma_split_append(s, r, sep);
        assert(x.drop_last() == s.push(sep) + r);
        assert(x.last() == t[t.len() - 1]);
        assert(r.push(t.last()) == t);
        lemma_split_on_nonempty(s, sep);
        let p = split_on(s, sep).push(r);
        assert(split_on(x, sep) == p.update(p.len() - 1, p.last().push(t.last())));
        assert(split_on(x, sep) =~= split_on(s, sep).push(t));
    }
}

/// Decodes one base64 field; an empty text leaves the field unset.
fn decode_field(text: &String) -> (field: Result<Option<Vec<u8>>, Base64Fault>)
    ensures
        match field {
            Ok(v) => decoded_field(text@) == Ok::<Option<Seq<u8>>, Base64Fault>(opt_bytes(v)),
            Err(f) => decoded_field(text@) == Err::<Option<Seq<u8>>, Base64Fault>(f),
        },
{
    if text.as_str().is_empty() {
        Ok(None)
    } else {
        match decode_base64(text.as_str()) {
            Ok(bytes) => Ok(Some(bytes)),
            Err(f) => Err(f),
        }
    }
}

impl AppConfig {
    /// Whether the decryption table, if one is set, holds only ASCII bytes
    /// (which every name decoded with it then consists of).
    pub fn dec_table_is_ascii(&self) -> (ascii: bool)
        ensures
            ascii == crate::rz::ascii_table(self@.dec_table),
    {
        match &self.dec_table {
            Some(table) => {
                let mut i: usize = 0;
                while i < table.len()
                    invariant
                        i <= table@.len(),
                        self@.dec_table == Some(table@),
                        forall|j: int| 0 <= j < i ==> table@[j] < 128,
                    decreases table@.len() - i,
                {
                    if table[i] >= 128 {
                        proof {
                            let t = self@.dec_table->0;
                            assert(t == table@);
                            assert(!(t[i as int] < 128));
                        }
                        return false;
                    }
                    i = i + 1;
                }
                true
            },
            None => true,
        }
    }

    /// Decodes a raw configuration: every non-empty base64 field is decoded
    /// (an empty one stays unset), and a non-empty extension list is split at
    /// `;`. Fails on the first field, in the order key, decryption table,
    /// reference table, that is not valid base64.
    pub fn from_config_file(raw: &ConfigFile) -> (config: Result<AppConfig, ConfigError>)
        ensures
            match config {
                Ok(c) => spec_from_config_file(raw@) == Ok::<AppConfigView, ConfigError>(c@),
                Err(e) => spec_from_config_file(raw@) == Err::<AppConfigView, ConfigError>(e),
            },
    {
        let key = match decode_field(&raw.resource_encode_key) {
            Ok(v) => v,
            Err(f) => return Err(ConfigError::InvalidBase64(ConfigField::ResourceEncodeKey, f)),
        };
        let dec = match decode_field(&raw.dec_table) {
            Ok(v) => v,
            Err(f) => return Err(ConfigError::InvalidBase64(ConfigField::DecTable, f)),
        };
        let reference = match decode_field(&raw.ref_table) {
            Ok(v) => v,
            Err(f) => return Err(ConfigError::InvalidBase64(ConfigField::RefTable, f)),
        };
        let extensions = if raw.decrypted_extensions.as_str().is_empty() {
            None
        } else {
            Some(split_extensions(raw.decrypted_extensions.as_str()))
        };
        let config = AppConfig {
            resource_encryption_key: key,
            dec_table: dec,
            ref_table: reference,
            decrypted_extensions: extensions,
        };
        Ok(config)
    }

    /// Builds the runtime configuration from what loading the configuration
    /// sources gave: with nothing loaded (`None`, the sources were missing or
    /// malformed) the configuration is empty and the call succeeds; otherwise
    /// it is [`AppConfig::from_config_file`] of the loaded values.
    pub fn new(loaded: Option<ConfigFile>) -> (config: Result<AppConfig, ConfigError>)
        ensures
            loaded is None ==> (config matches Ok(c) && c@ == AppConfigView::empty()),
            loaded matches Some(raw) ==> match config {
                Ok(c) => spec_from_config_file(raw@) == Ok::<AppConfigView, ConfigError>(c@),
                Err(e) => spec_from_config_file(raw@) == Err::<AppConfigView, ConfigError>(e),
            },
    {
        match loaded {
            Some(raw) => AppConfig::from_config_file(&raw),
            None => Ok(AppConfig::default()),
        }
    }
}

} // verus!
