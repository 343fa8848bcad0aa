//! The table of resources read from a `data.000` index, and the decisions
//! taken to export them.

use std::collections::HashMap;
use vstd::hash_map::StringHashMap;
use std::sync::Arc;
use vstd::prelude::*;

use crate::config::{opt_bytes, AppConfig, AppConfigView};
use crate::rz::{
    ascii_table, cipher, decode_file_name, deciphered, file_no, index_records, is_decrypted,
    lemma_file_no_range, name_checksum, parse_index, rz_decoded_name, spec_file_no, spec_is_plain,
    IndexRecord, IndexRecordView, RzFault,
};
use crate::text::{
    file_extension, is_plain_name, opt_text, path_extension, plain_name_extension, push_char,
    string_from_utf8, utf8_fault, Utf8Fault,
};

verus! {

broadcast use vstd::std_specs::hash::group_hash_axioms;

// ---------------------------------------------------------------------------
// Resources
// ---------------------------------------------------------------------------

/// One resource of the archives: its hashed and its decoded name, the number
/// of the `data.00x` file that holds it, and where it lies there.
pub struct RZData {
    /// The hashed name, as read from the index.
    pub hash: String,
    /// The decoded file name.
    pub name: String,
    /// The number `x` of the `data.00x` file that holds the resource (1 to 8).
    pub file: u8,
    /// Marks an entry read from the index (for display).
    pub found: bool,
    /// Size in bytes.
    pub size: u32,
    /// Offset in the `data.00x` file.
    pub offset: u32,
}

/// The abstract value of an [`RZData`].
pub struct RZDataView {
    pub hash: Seq<char>,
    pub name: Seq<char>,
    pub file: u8,
    pub found: bool,
    pub size: u32,
    pub offset: u32,
}

impl View for RZData {
    type V = RZDataView;

    open spec fn view(&self) -> RZDataView {
        RZDataView {
            hash: self.hash@,
            name: self.name@,
            file: self.file,
            found: self.found,
            size: self.size,
            offset: self.offset,
        }
    }
}

impl RZDataView {
    /// The empty entry shown when nothing was found.
    pub open spec fn empty() -> RZDataView {
        RZDataView {
            hash: Seq::<char>::empty(),
            name: Seq::<char>::empty(),
            file: 0,
            found: false,
            size: 0,
            offset: 0,
        }
    }
}

impl Default for RZData {
    /// The empty entry: empty names, every number zero, not found.
    fn default() -> (entry: RZData)
        ensures
            entry@ == RZDataView::empty(),
    {
        RZData { hash: String::new(), name: String::new(), file: 0, found: false, size: 0, offset: 0 }
    }
}

/// The views of a list of shared entries.
pub open spec fn views(entries: Seq<Arc<RZData>>) -> Seq<RZDataView> {
    entries.map_values(|e: Arc<RZData>| e@)
}

/// `Arc::clone`: another handle on the same value.
#[verifier::external_body]
pub(crate) fn share<T>(shared: &Arc<T>) -> (copy: Arc<T>)
    ensures
        copy == *shared,
{
    Arc::clone(shared)
}

/// Why reading the index or exporting a resource failed.
#[derive(Debug)]
pub enum StipantError {
    /// The `data.00x` file with this number was not found.
    NoDataPath(u8),
    /// The data path is not a directory.
    NotADirectory,
    /// The file name has no extension.
    NotAnExtension,
    /// No usable export directory is set.
    InvalidExportDirectory,
    /// A file name was asked for that the index does not hold.
    UnknownError,
    /// The index could not be read.
    Index(RzFault),
    /// A hashed name in the index is not UTF-8 text.
    HashNotText(Utf8Fault),
    /// A hashed name could not be decoded.
    NameDecode(RzFault),
    /// The configured decryption table holds bytes outside ASCII.
    DecTableNotAscii,
}

// ---------------------------------------------------------------------------
// From index records to entries
// ---------------------------------------------------------------------------

/// The entry that an index record stands for: its hash read as UTF-8, its name
/// decoded with the reference and decryption tables, and its archive number.
pub open spec fn spec_entry(
    record: IndexRecordView,
    reference: Option<Seq<u8>>,
    table: Option<Seq<u8>>,
) -> Result<RZDataView, StipantError> {
    if !vstd::utf8::valid_utf8(record.hash) {
        let f = utf8_fault(record.hash);
        Err(StipantError::HashNotText(Utf8Fault { valid_up_to: f.0, error_len: f.1 }))
    } else {
        let hash = vstd::utf8::decode_utf8(record.hash);
        if !ascii_table(table) {
            Err(StipantError::DecTableNotAscii)
        } else {
            match rz_decoded_name(hash, reference, table, true) {
            Ok(name) => Ok(
                RZDataView {
                    hash: hash,
                    name: name,
                    file: spec_file_no(hash),
                    found: true,
                    size: record.size,
                    offset: record.offset,
                },
            ),
                Err(f) => Err(StipantError::NameDecode(f)),
            }
        }
    }
}

/// The entries of the records, in order, or the error of the first record
/// that cannot be read.
pub open spec fn spec_entries(
    records: Seq<IndexRecordView>,
    reference: Option<Seq<u8>>,
    table: Option<Seq<u8>>,
) -> Result<Seq<RZDataView>, StipantError>
    decreases records.len(),
{
    if records.len() == 0 {
        Ok(Seq::<RZDataView>::empty())
    } else {
        match spec_entries(records.drop_last(), reference, table) {
            Err(e) => Err(e),
            Ok(done) => match spec_entry(records.last(), reference, table) {
                Err(e) => Err(e),
                Ok(entry) => Ok(done.push(entry)),
            },
        }
    }
}

/// The entries that the raw bytes of a `data.000` index stand for under a
/// configuration: the bytes deciphered with the configured key (or the
/// built-in one), read as records, and each record turned into an entry.
pub open spec fn spec_index_entries(data: Seq<u8>, config: AppConfigView) -> Result<Seq<RZDataView>, StipantError> {
    if data.len() == 0 {
        Err(StipantError::Index(RzFault::InvalidLength))
    } else {
        match index_records(deciphered(data, config.resource_encryption_key)) {
            None => Err(StipantError::Index(RzFault::Unknown)),
            Some(records) => spec_entries(records, config.ref_table, config.dec_table),
        }
    }
}

/// Reading an index that succeeds: the bytes are not empty, the bytes
/// deciphered with the key in force read as records, and there is one entry per
/// record, in order. Each entry's hash is its record's hash bytes read as
/// UTF-8; its name is what `rzfile` decodes that hash to with the configured
/// reference and decryption tables; its offset and size are the record's;
/// and its archive number is the absolute value of the `c = c * 31 + b`
/// checksum of the UTF-8 bytes of the lowercase hash, its three low bits,
/// plus one.
pub proof fn lemma_index_entries(data: Seq<u8>, config: AppConfigView, es: Seq<RZDataView>)
    requires
        spec_index_entries(data, config) == Ok::<Seq<RZDataView>, StipantError>(es),
    ensures
        data.len() > 0,
        index_records(deciphered(data, config.resource_encryption_key)) matches Some(records) && {
            &&& records.len() == es.len()
            &&& forall|i: int| 0 <= i < es.len() ==> record_gives_entry(records[i], #[trigger] es[i], config)
        },
{
    let records = index_records(deciphered(data, config.resource_encryption_key))->Some_0;
    lemma_entries_of_records(records, config.ref_table, config.dec_table, es, config);
}

/// An entry read from a record under a configuration, as stated by
/// [`lemma_index_entries`].
pub open spec fn record_gives_entry(record: IndexRecordView, entry: RZDataView, config: AppConfigView) -> bool {
    let c = crate::rz::java_checksum(vstd::utf8::encode_utf8(crate::text::str_lowercase(entry.hash))) as int;
    &&& vstd::utf8::valid_utf8(record.hash)
    &&& entry.hash == vstd::utf8::decode_utf8(record.hash)
    &&& rz_decoded_name(entry.hash, config.ref_table, config.dec_table, true) == Ok::<Seq<char>, RzFault>(entry.name)
    &&& entry.offset == record.offset
    &&& entry.size == record.size
    &&& entry.found
    &&& entry.file as int == (if c < 0 { -c } else { c }) % 8 + 1
}

proof fn lemma_entries_of_records(
    records: Seq<IndexRecordView>,
    reference: Option<Seq<u8>>,
    table: Option<Seq<u8>>,
    es: Seq<RZDataView>,
    config: AppConfigView,
)
    requires
        reference == config.ref_table,
        table == config.dec_table,
        spec_entries(records, reference, table) == Ok::<Seq<RZDataView>, StipantError>(es),
    ensures
        records.len() == es.len(),
        forall|i: int| 0 <= i < es.len() ==> record_gives_entry(records[i], #[trigger] es[i], config),
    decreases records.len(),
{
    if records.len() > 0 {
        let rest = records.drop_last();
        let done = spec_entries(rest, reference, table)->Ok_0;
        lemma_entries_of_records(rest, reference, table, done, config);
        let last = spec_entry(records.last(), reference, table)->Ok_0;
        assert(es == done.push(last));
        assert(record_gives_entry(records.last(), last, config));
        assert forall|i: int| 0 <= i < es.len() implies record_gives_entry(records[i], #[trigger] es[i], config) by {
            if i < rest.len() {
                assert(records[i] == rest[i]);
                assert(es[i] == done[i]);
            } else {
                assert(records[i] == records.last());
                assert(es[i] == last);
            }
        }
    } else {
        assert(es =~= Seq::<RZDataView>::empty());
    }
}

/// Once a prefix of the records fails, all of them fail with the same error.
proof fn lemma_entries_error_persists(
    records: Seq<IndexRecordView>,
    reference: Option<Seq<u8>>,
    table: Option<Seq<u8>>,
    k: int,
    e: StipantError,
)
    requires
        0 <= k <= records.len(),
        spec_entries(records.take(k), reference, table) == Err::<Seq<RZDataView>, StipantError>(e),
    ensures
        spec_entries(records, reference, table) == Err::<Seq<RZDataView>, StipantError>(e),
    decreases records.len() - k,
{
    if k < records.len() {
        assert(records.take(k + 1).drop_last() == records.take(k));
        lemma_entries_error_persists(records, reference, table, k + 1, e);
    } else {
        assert(records.take(k) == records);
    }
}

// ---------------------------------------------------------------------------
// The name index
// ---------------------------------------------------------------------------

/// The entries by name, as a map filled in index order: a later entry of the
/// same name replaces an earlier one.
pub open spec fn name_index(entries: Seq<RZDataView>) -> Map<Seq<char>, RZDataView>
    decreases entries.len(),
{
    if entries.len() == 0 {
        Map::<Seq<char>, RZDataView>::empty()
    } else {
        name_index(entries.drop_last()).insert(entries.last().name, entries.last())
    }
}

/// A name is in the index exactly when some entry bears it.
pub proof fn lemma_name_index_domain(entries: Seq<RZDataView>, name: Seq<char>)
    ensures
        name_index(entries).dom().contains(name) <==> exists|i: int|
            0 <= i < entries.len() && (#[trigger] entries[i]).name == name,
    decreases entries.len(),
{
    if entries.len() > 0 {
        let rest = entries.drop_last();
        lemma_name_index_domain(rest, name);
        if name_index(entries).dom().contains(name) && entries.last().name != name {
            let i: int = choose|i: int| 0 <= i < rest.len() && (#[trigger] rest[i]).name == name;
            assert(entries[i] == rest[i]);
        }
        if exists|i: int| 0 <= i < entries.len() && (#[trigger] entries[i]).name == name {
            let i: int = choose|i: int| 0 <= i < entries.len() && (#[trigger] entries[i]).name == name;
            if i < rest.len() {
                assert(rest[i] == entries[i]);
            }
        }
    }
}

/// The index holds, for each name, the last entry of that name.
pub proof fn lemma_name_index_last(entries: Seq<RZDataView>, i: int)
    requires
        0 <= i < entries.len(),
        forall|j: int| i < j < entries.len() ==> (#[trigger] entries[j]).name != entries[i].name,
    ensures
        name_index(entries).dom().contains(entries[i].name),
        name_index(entries)[entries[i].name] == entries[i],
    decreases entries.len(),
{
    if i < entries.len() - 1 {
        let rest = entries.drop_last();
        assert forall|j: int| i < j < rest.len() implies (#[trigger] rest[j]).name != rest[i].name by {
            assert(rest[j] == entries[j]);
        }
        lemma_name_index_last(rest, i);
        assert(entries.last() == entries[entries.len() - 1]);
    }
}

/// The entry that the index holds under a name bears that name.
pub proof fn lemma_name_index_keys(entries: Seq<RZDataView>, name: Seq<char>)
    requires
        name_index(entries).dom().contains(name),
    ensures
        name_index(entries)[name].name == name,
    decreases entries.len(),
{
    if entries.len() > 0 && entries.last().name != name {
        lemma_name_index_keys(entries.drop_last(), name);
    }
}

/// The index has finitely many names, at most as many as there are entries.
pub proof fn lemma_name_index_finite(entries: Seq<RZDataView>)
    ensures
        name_index(entries).dom().finite(),
        name_index(entries).dom().len() <= entries.len(),
    decreases entries.len(),
{
    if entries.len() > 0 {
        lemma_name_index_finite(entries.drop_last());
    }
}

// ---------------------------------------------------------------------------
// Archive groups, ordered by offset
// ---------------------------------------------------------------------------

/// `x` put into `sorted` after every entry whose offset is not greater than
/// its own, searching from the end.
pub open spec fn insert_by_offset(sorted: Seq<RZDataView>, x: RZDataView) -> Seq<RZDataView>
    decreases sorted.len(),
{
    if sorted.len() == 0 {
        seq![x]
    } else if sorted.last().offset <= x.offset {
        sorted.push(x)
    } else {
        insert_by_offset(sorted.drop_last(), x).push(sorted.last())
    }
}

/// The entries of archive `file`, ordered by offset, entries of equal offset
/// in index order.
pub open spec fn file_group(entries: Seq<RZDataView>, file: u8) -> Seq<RZDataView>
    decreases entries.len(),
{
    if entries.len() == 0 {
        Seq::<RZDataView>::empty()
    } else {
        let group = file_group(entries.drop_last(), file);
        if entries.last().file == file {
            insert_by_offset(group, entries.last())
        } else {
            group
        }
    }
}

/// Inserting at position `p`, found from the end as the first place after an
/// entry of offset not greater than that of `x`, is `insert_by_offset`.
proof fn lemma_insert_by_offset_at(s: Seq<RZDataView>, x: RZDataView, p: int)
    requires
        0 <= p <= s.len(),
        p == 0 || s[p - 1].offset <= x.offset,
        forall|j: int| p <= j < s.len() ==> (#[trigger] s[j]).offset > x.offset,
    ensures
        insert_by_offset(s, x) == s.insert(p, x),
    decreases s.len(),
{
    if s.len() == 0 {
        assert(s.insert(p, x) =~= seq![x]);
    } else if p == s.len() {
        assert(s.last().offset <= x.offset);
        assert(s.insert(p, x) =~= s.push(x));
    } else {
        let rest = s.drop_last();
        assert(s.last().offset > x.offset);
        assert forall|j: int| p <= j < rest.len() implies (#[trigger] rest[j]).offset > x.offset by {
            assert(rest[j] == s[j]);
        }
        lemma_insert_by_offset_at(rest, x, p);
        assert(rest.insert(p, x).push(s.last()) =~= s.insert(p, x));
    }
}

/// Puts `item` into an offset-ordered group, after every entry whose offset
/// is not greater than its own.
fn insert_sorted(group: &mut Vec<Arc<RZData>>, item: Arc<RZData>)
    ensures
        views(final(group)@) == insert_by_offset(views(old(group)@), item@),
{
    let ghost s = views(group@);
    let mut p: usize = group.len();
    while p > 0 && group[p - 1].offset > item.offset
        invariant
            p <= group.len(),
            group@ == old(group)@,
            s == views(group@),
            forall|j: int| p <= j < group.len() ==> (#[trigger] group@[j]).offset > item.offset,
        decreases p,
    {
        p = p - 1;
    }
    proof {
        assert forall|j: int| p <= j < s.len() implies (#[trigger] s[j]).offset > item@.offset by {
            assert(s[j] == group@[j]@);
        }
        if p > 0 {
            assert(s[p - 1] == group@[p - 1]@);
        }
        lemma_insert_by_offset_at(s, item@, p as int);
    }
    group.insert(p, item);
    assert(views(group@) =~= s.insert(p as int, item@));
}

} // verus!
verus! {

// ---------------------------------------------------------------------------
// The resource table
// ---------------------------------------------------------------------------

/// The bytes of an optional byte vector, borrowed.
fn bytes_of(v: &Option<Vec<u8>>) -> (s: Option<&[u8]>)
    ensures
        crate::rz::opt_slice(s) == opt_bytes(*v),
{
    match v {
        Some(b) => Some(b.as_slice()),
        None => None,
    }
}

/// The decimal digits of a number.
pub open spec fn decimal(n: u8) -> Seq<char> {
    if n < 10 {
        seq![(n + 48) as char]
    } else if n < 100 {
        seq![(n / 10 + 48) as char, (n % 10 + 48) as char]
    } else {
        seq![(n / 100 + 48) as char, (n / 10 % 10 + 48) as char, (n % 10 + 48) as char]
    }
}

/// The name of the archive file with number `file`: `data.00` and the number.
pub open spec fn data_file_name_spec(file: u8) -> Seq<char> {
    seq!['d', 'a', 't', 'a', '.', '0', '0'] + decimal(file)
}

/// The name of the archive file with number `file` (`data.001` for 1).
pub fn data_file_name(file: u8) -> (name: String)
    ensures
        name@ == data_file_name_spec(file),
{
    let mut name = "data.00".to_owned();
    proof {
        reveal_strlit("data.00");
    }
    if file >= 100 {
        push_char(&mut name, (file / 100 + 48) as char);
    }
    if file >= 10 {
        push_char(&mut name, (file / 10 % 10 + 48) as char);
    }
    push_char(&mut name, (file % 10 + 48) as char);
    assert(name@ =~= data_file_name_spec(file));
    name
}

/// The bytes written for a resource of name `name` read from its archive as
/// `contents`: as they are when the name ends with one of the configured
/// unencrypted extensions (or `rzfile`'s default ones when none are
/// configured), else deciphered with the configured resource key (or the
/// built-in one). Both ways of dumping write these bytes.
pub open spec fn exported_bytes(config: AppConfigView, name: Seq<char>, contents: Seq<u8>) -> Seq<u8> {
    if spec_is_plain(name, config.decrypted_extensions) {
        contents
    } else {
        deciphered(contents, config.resource_encryption_key)
    }
}

/// What is written for a resource, in terms of its name, the bytes read and
/// the configuration: when the name ends with one of the extensions in force
/// (the configured list, or `rzfile`'s default list when none is configured)
/// the bytes as read, whatever resource key is configured; otherwise as many
/// bytes, each XORed with the byte of the key in force (the configured
/// resource key, or `rzfile`'s built-in key when none is set) at the same
/// position, the key repeated; an empty key leaves them as they are.
pub proof fn lemma_exported_bytes(config: AppConfigView, name: Seq<char>, contents: Seq<u8>)
    ensures
        (exists|i: int|
            0 <= i < crate::rz::plain_extensions(config.decrypted_extensions).len() && crate::rz::ends_with(
                name,
                #[trigger] crate::rz::plain_extensions(config.decrypted_extensions)[i],
            )) ==> exported_bytes(config, name, contents) == contents,
        !(exists|i: int|
            0 <= i < crate::rz::plain_extensions(config.decrypted_extensions).len() && crate::rz::ends_with(
                name,
                #[trigger] crate::rz::plain_extensions(config.decrypted_extensions)[i],
            )) ==> ({
            let key = match config.resource_encryption_key {
                Some(k) => k,
                None => crate::rz::rz_builtin_key(),
            };
            &&& exported_bytes(config, name, contents).len() == contents.len()
            &&& forall|j: int| 0 <= j < contents.len() ==> #[trigger] exported_bytes(config, name, contents)[j]
                == if key.len() == 0 { contents[j] } else { contents[j] ^ key[j % (key.len() as int)] }
        }),
{
}

/// Exporting depends on the resource key and the extension list alone: two
/// configurations that agree on them write the same bytes for the same
/// resource, whatever their name tables.
pub proof fn lemma_exported_bytes_ignore_tables(
    c1: AppConfigView,
    c2: AppConfigView,
    name: Seq<char>,
    contents: Seq<u8>,
)
    requires
        c1.resource_encryption_key == c2.resource_encryption_key,
        c1.decrypted_extensions == c2.decrypted_extensions,
    ensures
        exported_bytes(c1, name, contents) == exported_bytes(c2, name, contents),
{
}

/// The work of one worker when dumping everything: the resources of one
/// archive, in offset order, and where to put them.
pub struct DumpTask {
    /// The number of the archive.
    pub file_no: u8,
    /// The archive's file name, in the data directory.
    pub data_file: String,
    /// The export directory.
    pub export_dir: String,
    /// The resources of the archive, ordered by offset.
    pub entries: Vec<Arc<RZData>>,
}

/// What dumping one resource by name reads and where it writes.
pub struct DumpTarget {
    /// The archive's file name, in the data directory.
    pub data_file: String,
    /// The export directory.
    pub export_dir: String,
    /// The resource.
    pub entry: Arc<RZData>,
}

/// A resource ready to be written: into the subdirectory named after its
/// extension, under its own name.
pub struct ExportFile {
    /// The subdirectory of the export directory: the file's extension.
    pub directory: String,
    /// The file name.
    pub file_name: String,
    /// The bytes to write.
    pub contents: Vec<u8>,
}

/// The map holds, under each name of the entries, the last entry of that
/// name, and no other name.
spec fn index_matches(entries: Seq<RZDataView>, index: Map<Seq<char>, Arc<RZData>>) -> bool {
    &&& index.dom() == name_index(entries).dom()
    &&& forall|k: Seq<char>| #[trigger] index.contains_key(k) ==> index[k]@ == name_index(entries)[k]
}

/// The groups are keyed by the archives 1 to 8, every entry lies in one of
/// them, and each group holds its archive's entries ordered by offset.
spec fn groups_match(entries: Seq<RZDataView>, groups: Map<u8, Vec<Arc<RZData>>>) -> bool {
    &&& forall|f: u8| #[trigger] groups.contains_key(f) <==> 1 <= f <= 8
    &&& forall|i: int| 0 <= i < entries.len() ==> 1 <= #[trigger] entries[i].file <= 8
    &&& forall|f: u8| 1 <= f <= 8 ==> #[trigger] views(groups[f]@) == file_group(entries, f)
}

/// The resources listed by a `data.000` index: every entry in index order,
/// looked up by name (the last entry of a name wins), and grouped by the
/// `data.00x` file that holds it, each group ordered by offset.
pub struct DataHandler {
    data_dir: String,
    export_dir: Option<String>,
    entries: Vec<Arc<RZData>>,
    index: StringHashMap<Arc<RZData>>,
    file_groups: HashMap<u8, Vec<Arc<RZData>>>,
    config: Arc<AppConfig>,
}

impl DataHandler {
    /// The directory that holds the `data.00x` files.
    pub closed spec fn data_dir_view(&self) -> Seq<char> {
        self.data_dir@
    }

    /// Where exported files go, once chosen.
    pub closed spec fn export_dir_view(&self) -> Option<Seq<char>> {
        opt_text(self.export_dir)
    }

    /// Every entry read from the index, in index order.
    pub closed spec fn entries_view(&self) -> Seq<RZDataView> {
        views(self.entries@)
    }

    /// The entries by name: for each name, its last entry.
    pub open spec fn index_view(&self) -> Map<Seq<char>, RZDataView> {
        name_index(self.entries_view())
    }

    /// The group of archive `file` (1 to 8), in the order it is dumped in.
    pub closed spec fn group_view(&self, file: u8) -> Seq<RZDataView> {
        views(self.file_groups@[file]@)
    }

    /// The configuration the table was read with.
    pub closed spec fn config_view(&self) -> AppConfigView {
        self.config@
    }

    /// Every entry lies in one of the archives 1 to 8, and the group of each
    /// archive holds exactly its entries, ordered by offset (entries of equal
    /// offset in index order).
    pub open spec fn groups_by_archive(&self) -> bool {
        &&& forall|i: int| 0 <= i < self.entries_view().len() ==> 1 <= #[trigger] self.entries_view()[i].file <= 8
        &&& forall|f: u8| 1 <= f <= 8 ==> #[trigger] self.group_view(f) == file_group(self.entries_view(), f)
    }

    /// The table is always well-formed: the map by name holds the last entry
    /// of each name, the groups are those of
    /// the archives 1 to 8, and the groups are by archive.
    #[verifier::type_invariant]
    spec fn wf(&self) -> bool {
        &&& index_matches(views(self.entries@), self.index@)
        &&& groups_match(views(self.entries@), self.file_groups@)
    }

    /// The directory that holds the `data.00x` files.
    pub fn data_dir(&self) -> (dir: &String)
        ensures
            dir@ == self.data_dir_view(),
    {
        &self.data_dir
    }

    /// Where exported files go, if chosen.
    pub fn export_dir(&self) -> (dir: Option<&String>)
        ensures
            match dir {
                Some(d) => self.export_dir_view() == Some(d@),
                None => self.export_dir_view() is None,
            },
    {
        self.export_dir.as_ref()
    }

    /// Sets the directory that exported files go to.
    pub fn set_export_dir(&mut self, export_dir: &str)
        ensures
            final(self).export_dir_view() == Some(export_dir@),
            final(self).data_dir_view() == old(self).data_dir_view(),
            final(self).entries_view() == old(self).entries_view(),
            final(self).config_view() == old(self).config_view(),
            forall|f: u8| #[trigger] final(self).group_view(f) == old(self).group_view(f),
    {
        proof {
            use_type_invariant(&*self);
        }
        self.export_dir = Some(export_dir.to_owned());
    }

    /// The entry of a file name: the last entry of the index that bears it,
    /// or `None` when no entry does.
    pub fn get_entry_by_name(&self, file_name: &str) -> (entry: Option<Arc<RZData>>)
        ensures
            match entry {
                Some(e) => {
                    &&& self.index_view().contains_key(file_name@)
                    &&& e@ == self.index_view()[file_name@]
                    &&& e.name@ == file_name@
                },
                None => !self.index_view().contains_key(file_name@),
            },
    {
        proof {
            use_type_invariant(self);
        }
        match self.index.get(file_name) {
            Some(e) => {
                proof {
                    lemma_name_index_keys(self.entries_view(), file_name@);
                }
                Some(share(e))
            },
            None => None,
        }
    }

    /// The number of distinct file names in the index.
    pub fn len(&self) -> (n: usize)
        ensures
            n == self.index_view().dom().len(),
    {
        proof {
            use_type_invariant(self);
        }
        self.index.len()
    }

    /// Whether an export directory is set and, as `export_dir_is_dir` tells,
    /// names an existing directory.
    pub fn check_export_dir(&self, export_dir_is_dir: bool) -> (usable: bool)
        ensures
            usable == (self.export_dir_view() is Some && export_dir_is_dir),
    {
        self.export_dir.is_some() && export_dir_is_dir
    }

    /// Checks a chosen data directory before its index is read: `path_is_dir`
    /// tells whether the path names a directory, `index_is_file` whether a
    /// `data.000` file lies in it.
    pub fn check_data_dir(path_is_dir: bool, index_is_file: bool) -> (checked: Result<(), StipantError>)
        ensures
            !path_is_dir ==> checked == Err::<(), StipantError>(StipantError::NotADirectory),
            path_is_dir && !index_is_file ==> checked == Err::<(), StipantError>(StipantError::NoDataPath(0)),
            path_is_dir && index_is_file ==> checked is Ok,
    {
        if !path_is_dir {
            Err(StipantError::NotADirectory)
        } else if !index_is_file {
            Err(StipantError::NoDataPath(0))
        } else {
            Ok(())
        }
    }

    /// Plans dumping every resource: nothing when no usable export directory
    /// is set (`export_dir_is_dir` tells whether the one set names an
    /// existing directory); otherwise one task per archive `data.001` to
    /// `data.008`, each with the archive's resources in offset order.
    pub fn dump_all(&self, export_dir_is_dir: bool) -> (tasks: Vec<DumpTask>)
        ensures
            !(self.export_dir_view() is Some && export_dir_is_dir) ==> tasks@.len() == 0,
            (self.export_dir_view() is Some && export_dir_is_dir) ==> {
                &&& tasks@.len() == 8
                &&& forall|i: int| 0 <= i < 8 ==> {
                    &&& (#[trigger] tasks@[i]).file_no == i + 1
                    &&& tasks@[i].data_file@ == data_file_name_spec((i + 1) as u8)
                    &&& self.export_dir_view() == Some(tasks@[i].export_dir@)
                    &&& views(tasks@[i].entries@) == self.group_view((i + 1) as u8)
                }
            },
    {
        proof {
            use_type_invariant(self);
        }
        let mut tasks: Vec<DumpTask> = Vec::new();
        if !self.check_export_dir(export_dir_is_dir) {
            return tasks;
        }
        let export_dir = match &self.export_dir {
            Some(d) => d,
            None => {
                return tasks;
            },
        };
        let mut file: u8 = 1;
        while file <= 8
            invariant
                1 <= file <= 9,
                tasks@.len() == file - 1,
                self.wf(),
                self.export_dir_view() == Some(export_dir@),
                forall|i: int| 0 <= i < file - 1 ==> {
                    &&& (#[trigger] tasks@[i]).file_no == i + 1
                    &&& tasks@[i].data_file@ == data_file_name_spec((i + 1) as u8)
                    &&& self.export_dir_view() == Some(tasks@[i].export_dir@)
                    &&& views(tasks@[i].entries@) == self.group_view((i + 1) as u8)
                },
            decreases 9 - file,
        {
            let empty: Vec<Arc<RZData>> = Vec::new();
            let group = match self.file_groups.get(&file) {
                Some(g) => g,
                None => &empty,
            };
            let mut entries: Vec<Arc<RZData>> = Vec::new();
            let mut k: usize = 0;
            while k < group.len()
                invariant
                    k <= group@.len(),
                    entries@.len() == k,
                    forall|j: int| 0 <= j < k ==> #[trigger] entries@[j] == group@[j],
                decreases group@.len() - k,
            {
                entries.push(share(&group[k]));
                k = k + 1;
            }
            assert(views(entries@) =~= self.group_view(file));
            tasks.push(DumpTask {
                file_no: file,
                data_file: data_file_name(file),
                export_dir: export_dir.clone(),
                entries,
            });
            file = file + 1;
        }
        tasks
    }

    /// Plans dumping one resource by name: refused with
    /// `InvalidExportDirectory` when no usable export directory is set
    /// (`export_dir_is_dir` tells whether the one set names an existing
    /// directory), with `UnknownError` when the index holds no such name;
    /// otherwise the resource, its archive's file name and the export
    /// directory.
    pub fn dump_by_filename(&self, file_name: &str, export_dir_is_dir: bool) -> (target: Result<DumpTarget, StipantError>)
        ensures
            !(self.export_dir_view() is Some && export_dir_is_dir) ==> target matches Err(StipantError::InvalidExportDirectory),
            (self.export_dir_view() is Some && export_dir_is_dir) && !self.index_view().contains_key(file_name@)
                ==> target matches Err(StipantError::UnknownError),
            (self.export_dir_view() is Some && export_dir_is_dir) && self.index_view().contains_key(file_name@)
                ==> (target matches Ok(t) && {
                &&& t.entry@ == self.index_view()[file_name@]
                &&& 1 <= t.entry.file <= 8
                &&& t.data_file@ == data_file_name_spec(t.entry.file)
                &&& self.export_dir_view() == Some(t.export_dir@)
                &&& self.group_view(t.entry.file).contains(t.entry@)
            }),
    {
        proof {
            use_type_invariant(self);
        }
        if !self.check_export_dir(export_dir_is_dir) {
            return Err(StipantError::InvalidExportDirectory);
        }
        let export_dir = match &self.export_dir {
            Some(d) => d,
            None => {
                return Err(StipantError::InvalidExportDirectory);
            },
        };
        match self.index.get(file_name) {
            Some(e) => {
                proof {
                    lemma_named_entry_in_group(self.entries_view(), file_name@);
                    lemma_group_members(self.entries_view(), e.file);
                    assert(self.entries_view().contains(e@));
                }
                let entry = share(e);
                let data_file = data_file_name(entry.file);
                Ok(DumpTarget { data_file, export_dir: export_dir.clone(), entry })
            },
            None => Err(StipantError::UnknownError),
        }
    }

    /// Prepares a resource read from its archive for writing: unless its name
    /// ends with one of the configured unencrypted extensions (or `rzfile`'s
    /// default ones when none are configured), the bytes are deciphered with
    /// the configured resource key (or the built-in one). Refused with
    /// `NotAnExtension` when the name has no extension; otherwise the file
    /// goes into the subdirectory named after its extension, under its name.
    pub fn export_payload(&self, entry: &RZData, contents: Vec<u8>) -> (file: Result<ExportFile, StipantError>)
        ensures
            path_extension(entry.name@) is None ==> file matches Err(StipantError::NotAnExtension),
            is_plain_name(entry.name@) ==> match file {
                Ok(f) => plain_name_extension(entry.name@) == Some(f.directory@),
                Err(_) => plain_name_extension(entry.name@) is None,
            },
            path_extension(entry.name@) is Some ==> (file matches Ok(f) && {
                &&& path_extension(entry.name@) == Some(f.directory@)
                &&& f.file_name@ == entry.name@
                &&& f.contents@ == exported_bytes(self.config_view(), entry.name@, contents@)
            }),
    {
        let mut contents = contents;
        let config: &AppConfig = &self.config;
        if !is_decrypted(entry.name.as_str(), config.decrypted_extensions.as_ref()) {
            cipher(&mut contents, bytes_of(&config.resource_encryption_key));
        }
        match file_extension(entry.name.as_str()) {
            Some(directory) => Ok(ExportFile { directory, file_name: entry.name.clone(), contents }),
            None => Err(StipantError::NotAnExtension),
        }
    }

    /// Reads the table from the raw bytes of a `data.000` index, found in the
    /// directory `filepath`.
    ///
    /// The bytes are deciphered with the configured resource key (or the
    /// built-in one) and read as records; for each record, in order, the hash
    /// must be UTF-8 text and decode (with the configured reference and
    /// decryption tables, or `rzfile`'s own where none are set) to a file
    /// name, and its archive number is taken from the hash. The first failure
    /// is returned. The export directory starts unset.
    ///
    /// A decryption table that is not ASCII is refused with
    /// `DecTableNotAscii` when the first name is to be decoded: every decoded
    /// byte is one of its bytes, and `rzfile` panics on a decoded name that is
    /// not UTF-8.
    #[verifier::rlimit(40)]
    pub fn new(filepath: &str, index_data: Vec<u8>, config: Arc<AppConfig>) -> (handler: Result<DataHandler, StipantError>)
        ensures
            match handler {
                Ok(h) => {
                    &&& spec_index_entries(index_data@, config@) == Ok::<Seq<RZDataView>, StipantError>(h.entries_view())
                    &&& h.groups_by_archive()
                    &&& h.data_dir_view() == filepath@
                    &&& h.export_dir_view() is None
                    &&& h.config_view() == config@
                },
                Err(e) => spec_index_entries(index_data@, config@) == Err::<Seq<RZDataView>, StipantError>(e),
            },
    {
        let ghost data = index_data@;
        let key = bytes_of(&config.resource_encryption_key);
        let reference = bytes_of(&config.ref_table);
        let table = bytes_of(&config.dec_table);
        let records = match parse_index(index_data, key) {
            Ok(r) => r,
            Err(f) => {
                return Err(StipantError::Index(f));
            },
        };
        let ghost all = records@.map_values(|r: IndexRecord| r@);
        let ghost tab = config@.dec_table;
        let ghost refs = config@.ref_table;
        assert(index_records(deciphered(data, config@.resource_encryption_key)) == Some(all));
        assert(data.len() > 0);
        assert(spec_index_entries(data, config@) == spec_entries(all, refs, tab));
        let count: usize = records.len();
        let mut groups: HashMap<u8, Vec<Arc<RZData>>> = HashMap::new();
        let mut n: u8 = 1;
        while n <= 8
            invariant
                1 <= n <= 9,
                forall|f: u8| #[trigger] groups@.contains_key(f) <==> 1 <= f < n,
                forall|f: u8| groups@.contains_key(f) ==> (#[trigger] groups@[f])@.len() == 0,
            decreases 9 - n,
        {
            groups.insert(n, Vec::new());
            n = n + 1;
        }
        let table_ascii = config.dec_table_is_ascii();
        let mut entries: Vec<Arc<RZData>> = Vec::new();
        let mut index: StringHashMap<Arc<RZData>> = StringHashMap::new();
        proof {
            assert(all.take(0) =~= Seq::<IndexRecordView>::empty());
            assert(views(entries@) =~= Seq::<RZDataView>::empty());
            assert(index@.dom() =~= name_index(views(entries@)).dom());
            assert forall|f: u8| 1 <= f <= 8 implies #[trigger] views(groups@[f]@) == file_group(views(entries@), f) by {
                assert(views(groups@[f]@) =~= Seq::<RZDataView>::empty());
            }
        }
        for record in it: records.into_iter()
            invariant
                it.seq().map_values(|r: IndexRecord| r@) == all,
                all.len() == count,
                tab == config@.dec_table,
                refs == config@.ref_table,
                spec_index_entries(index_data@, config@) == spec_entries(all, refs, tab),
                crate::rz::opt_slice(reference) == refs,
                crate::rz::opt_slice(table) == tab,
                table_ascii == ascii_table(tab),
                entries.len() == it.index(),
                spec_entries(all.take(it.index() as int), refs, tab) == Ok::<Seq<RZDataView>, StipantError>(views(entries@)),
                index_matches(views(entries@), index@),
                forall|f: u8| #[trigger] groups@.contains_key(f) <==> 1 <= f <= 8,
                forall|f: u8| 1 <= f <= 8 ==> #[trigger] views(groups@[f]@) == file_group(views(entries@), f),
                forall|i: int| 0 <= i < entries.len() ==> 1 <= #[trigger] entries@[i].file <= 8,
        {
            let ghost k = entries.len() as int;
            let ghost before = views(entries@);
            let ghost old_entries = entries@;
            proof {
                assert(all.take(k + 1).drop_last() == all.take(k));
                assert(all.take(k + 1).last() == all[k]);
                assert(record@ == all[k]);
            }
            let IndexRecord { hash: hash_bytes, offset, size } = record;
            let hash = match string_from_utf8(hash_bytes) {
                Ok(h) => h,
                Err(f) => {
                    proof {
                        lemma_entries_error_persists(all, refs, tab, k + 1, StipantError::HashNotText(f));
                    }
                    return Err(StipantError::HashNotText(f));
                },
            };
            if !table_ascii {
                proof {
                    lemma_entries_error_persists(all, refs, tab, k + 1, StipantError::DecTableNotAscii);
                }
                return Err(StipantError::DecTableNotAscii);
            }
            let name = match decode_file_name(hash.as_str(), reference, table, true) {
                Ok(n) => n,
                Err(f) => {
                    proof {
                        lemma_entries_error_persists(all, refs, tab, k + 1, StipantError::NameDecode(f));
                    }
                    return Err(StipantError::NameDecode(f));
                },
            };
            // `rzfile` negates a negative checksum; for `i32::MIN` that
            // overflows (and panics where overflow checks are on), so that
            // checksum is not handed to it: it stands for archive 1, the
            // number `rzfile` gives when the negation wraps.
            let file: u8 = if name_checksum(hash.as_str()) == i32::MIN {
                1
            } else {
                file_no(hash.as_str())
            };
            proof {
                lemma_file_no_range(hash@);
            }
            let entry = Arc::new(RZData { hash, name, file, found: true, size, offset });
            let ghost e = entry@;
            assert(spec_entry(all[k], refs, tab) == Ok::<RZDataView, StipantError>(e));
            let ghost old_groups = groups@;
            let mut group = match groups.remove(&file) {
                Some(g) => g,
                None => Vec::new(),
            };
            assert(views(group@) == file_group(before, file));
            insert_sorted(&mut group, share(&entry));
            groups.insert(file, group);
            let ghost old_index = index@;
            index.insert(entry.name.clone(), share(&entry));
            entries.push(entry);
            let ghost after = views(entries@);
            proof {
                assert(after =~= before.push(e));
                assert(after.drop_last() == before);
                assert(after.last() == e);
                // groups
                assert forall|f: u8| #[trigger] groups@.contains_key(f) <==> 1 <= f <= 8 by {
                    if f != file {
                        assert(groups@.contains_key(f) == old_groups.contains_key(f));
                    }
                }
                assert forall|f: u8| 1 <= f <= 8 implies #[trigger] views(groups@[f]@) == file_group(after, f) by {
                    if f != file {
                        assert(groups@[f] == old_groups[f]);
                    }
                }
                // files
                assert forall|i: int| 0 <= i < entries.len() implies 1 <= #[trigger] entries@[i].file <= 8 by {
                    if i < k {
                        assert(entries@[i] == old_entries[i]);
                    }
                }
                // names
                assert(name_index(after) == name_index(before).insert(e.name, e));
                assert(index@.dom() =~= name_index(after).dom());
                assert forall|key: Seq<char>| #[trigger] index@.contains_key(key) implies index@[key]@ == name_index(after)[key] by {
                    if key != e.name {
                        assert(old_index.contains_key(key));
                    }
                }
            }
        }
        proof {
            assert(all.take(all.len() as int) == all);
        }
        Ok(DataHandler {
            data_dir: filepath.to_owned(),
            export_dir: None,
            entries,
            index,
            file_groups: groups,
            config,
        })
    }
}

} // verus!
verus! {

// ---------------------------------------------------------------------------
// Laws of the archive groups
// ---------------------------------------------------------------------------

proof fn lemma_filter_push(s: Seq<RZDataView>, x: RZDataView, p: spec_fn(RZDataView) -> bool)
    ensures
        s.push(x).filter(p) == (if p(x) { s.filter(p).push(x) } else { s.filter(p) }),
{
    reveal(Seq::filter);
    assert(s.push(x).drop_last() == s);
    assert(s.push(x).last() == x);
}

/// Inserting by offset adds exactly one element.
proof fn lemma_insert_len(s: Seq<RZDataView>, x: RZDataView)
    ensures
        insert_by_offset(s, x).len() == s.len() + 1,
    decreases s.len(),
{
    if s.len() > 0 && s.last().offset > x.offset {
        lemma_insert_len(s.drop_last(), x);
    }
}

/// The elements after inserting are those before and the inserted one.
proof fn lemma_insert_members(s: Seq<RZDataView>, x: RZDataView)
    ensures
        insert_by_offset(s, x).contains(x),
        forall|y: RZDataView| s.contains(y) ==> insert_by_offset(s, x).contains(y),
        forall|y: RZDataView| #[trigger] insert_by_offset(s, x).contains(y) ==> y == x || s.contains(y),
    decreases s.len(),
{
    let r = insert_by_offset(s, x);
    if s.len() == 0 {
        assert(r[0] == x);
    } else if s.last().offset <= x.offset {
        assert(r[s.len() as int] == x);
        assert forall|y: RZDataView| s.contains(y) implies r.contains(y) by {
            let k: int = choose|k: int| 0 <= k < s.len() && s[k] == y;
            assert(r[k] == y);
        }
        assert forall|y: RZDataView| #[trigger] r.contains(y) implies y == x || s.contains(y) by {
            let k: int = choose|k: int| 0 <= k < r.len() && r[k] == y;
            if k < s.len() {
                assert(s[k] == y);
            }
        }
    } else {
        let rest = s.drop_last();
        lemma_insert_members(rest, x);
        lemma_insert_len(rest, x);
        let inner = insert_by_offset(rest, x);
        assert(r == inner.push(s.last()));
        let kx: int = choose|k: int| 0 <= k < inner.len() && inner[k] == x;
        assert(r[kx] == x);
        assert forall|y: RZDataView| s.contains(y) implies r.contains(y) by {
            let k: int = choose|k: int| 0 <= k < s.len() && s[k] == y;
            if k == s.len() - 1 {
                assert(r[inner.len() as int] == y);
            } else {
                assert(rest[k] == y);
                assert(rest.contains(y));
                let m: int = choose|m: int| 0 <= m < inner.len() && inner[m] == y;
                assert(r[m] == y);
            }
        }
        assert forall|y: RZDataView| #[trigger] r.contains(y) implies y == x || s.contains(y) by {
            let k: int = choose|k: int| 0 <= k < r.len() && r[k] == y;
            if k == inner.len() {
                assert(s[s.len() - 1] == y);
            } else {
                assert(inner[k] == y);
                assert(inner.contains(y));
                if y != x {
                    let m: int = choose|m: int| 0 <= m < rest.len() && rest[m] == y;
                    assert(s[m] == y);
                }
            }
        }
    }
}

/// Whether a list of entries is ordered by offset.
pub open spec fn sorted_by_offset(s: Seq<RZDataView>) -> bool {
    forall|i: int, j: int| 0 <= i < j < s.len() ==> (#[trigger] s[i]).offset <= (#[trigger] s[j]).offset
}

/// Inserting by offset keeps a list ordered.
proof fn lemma_insert_sorted(s: Seq<RZDataView>, x: RZDataView)
    requires
        sorted_by_offset(s),
    ensures
        sorted_by_offset(insert_by_offset(s, x)),
    decreases s.len(),
{
    if s.len() > 0 && s.last().offset > x.offset {
        let rest = s.drop_last();
        assert(sorted_by_offset(rest));
        lemma_insert_sorted(rest, x);
        lemma_insert_members(rest, x);
        lemma_insert_len(rest, x);
        let inner = insert_by_offset(rest, x);
        let r = inner.push(s.last());
        assert forall|i: int, j: int| 0 <= i < j < r.len() implies (#[trigger] r[i]).offset <= (#[trigger] r[j]).offset by {
            if j == inner.len() {
                assert(inner.contains(r[i]));
                if r[i] != x {
                    let m: int = choose|m: int| 0 <= m < rest.len() && rest[m] == r[i];
                    assert(s[m] == r[i]);
                }
            } else {
                assert(r[i] == inner[i] && r[j] == inner[j]);
            }
        }
    } else if s.len() > 0 {
        let r = s.push(x);
        assert forall|i: int, j: int| 0 <= i < j < r.len() implies (#[trigger] r[i]).offset <= (#[trigger] r[j]).offset by {
            if j == s.len() {
                assert(s[i].offset <= s[s.len() - 1].offset || i == s.len() - 1);
            }
        }
    }
}

/// Inserting by offset, seen through the entries of one offset `o`: the
/// inserted entry comes after those already there.
proof fn lemma_insert_filter_offset(s: Seq<RZDataView>, x: RZDataView, o: u32)
    ensures
        insert_by_offset(s, x).filter(|e: RZDataView| e.offset == o) == (if x.offset == o {
            s.filter(|e: RZDataView| e.offset == o).push(x)
        } else {
            s.filter(|e: RZDataView| e.offset == o)
        }),
    decreases s.len(),
{
    let p = |e: RZDataView| e.offset == o;
    if s.len() == 0 {
        lemma_filter_push(s, x, p);
        assert(s.push(x) =~= seq![x]);
    } else if s.last().offset <= x.offset {
        lemma_filter_push(s, x, p);
    } else {
        let rest = s.drop_last();
        lemma_insert_filter_offset(rest, x, o);
        lemma_filter_push(insert_by_offset(rest, x), s.last(), p);
        lemma_filter_push(rest, s.last(), p);
        assert(rest.push(s.last()) == s);
    }
}

/// Every entry of the group of archive `f` lies in archive `f`.
pub proof fn lemma_group_members(entries: Seq<RZDataView>, f: u8)
    ensures
        forall|y: RZDataView| #[trigger] file_group(entries, f).contains(y) ==> y.file == f && entries.contains(y),
    decreases entries.len(),
{
    if entries.len() > 0 {
        let rest = entries.drop_last();
        lemma_group_members(rest, f);
        let g = file_group(rest, f);
        if entries.last().file == f {
            lemma_insert_members(g, entries.last());
        }
        assert forall|y: RZDataView| #[trigger] file_group(entries, f).contains(y) implies y.file == f && entries.contains(y) by {
            if y != entries.last() {
                assert(g.contains(y));
                let m: int = choose|m: int| 0 <= m < rest.len() && rest[m] == y;
                assert(entries[m] == y);
            } else {
                assert(entries[entries.len() - 1] == y);
            }
        }
    }
}

/// Every entry lies in the group of its own archive.
pub proof fn lemma_group_complete(entries: Seq<RZDataView>, i: int)
    requires
        0 <= i < entries.len(),
    ensures
        file_group(entries, entries[i].file).contains(entries[i]),
    decreases entries.len(),
{
    let rest = entries.drop_last();
    let e = entries.last();
    if i < entries.len() - 1 {
        lemma_group_complete(rest, i);
        assert(rest[i] == entries[i]);
        if e.file == entries[i].file {
            lemma_insert_members(file_group(rest, e.file), e);
        }
    } else {
        lemma_insert_members(file_group(rest, e.file), e);
    }
}

/// Dumping a resource by name takes the entry that dumping everything writes
/// for that name: the entry the index holds under a name lies in the group of
/// its own archive.
pub proof fn lemma_named_entry_in_group(entries: Seq<RZDataView>, name: Seq<char>)
    requires
        name_index(entries).contains_key(name),
    ensures
        file_group(entries, name_index(entries)[name].file).contains(name_index(entries)[name]),
    decreases entries.len(),
{
    let rest = entries.drop_last();
    let e = entries.last();
    if e.name == name {
        lemma_group_complete(entries, entries.len() - 1);
        assert(entries[entries.len() - 1] == e);
    } else {
        lemma_named_entry_in_group(rest, name);
        let x = name_index(rest)[name];
        assert(name_index(entries)[name] == x);
        if e.file == x.file {
            lemma_insert_members(file_group(rest, x.file), e);
        }
    }
}

/// Every group is ordered by offset.
pub proof fn lemma_group_sorted(entries: Seq<RZDataView>, f: u8)
    ensures
        sorted_by_offset(file_group(entries, f)),
    decreases entries.len(),
{
    if entries.len() > 0 {
        lemma_group_sorted(entries.drop_last(), f);
        if entries.last().file == f {
            lemma_insert_sorted(file_group(entries.drop_last(), f), entries.last());
        }
    }
}

/// The group of archive `f` is stable: the entries of any one offset keep
/// the order they have in the index.
pub proof fn lemma_group_stable(entries: Seq<RZDataView>, f: u8, o: u32)
    ensures
        file_group(entries, f).filter(|e: RZDataView| e.offset == o)
            == entries.filter(|e: RZDataView| e.file == f && e.offset == o),
    decreases entries.len(),
{
    let q = |e: RZDataView| e.file == f && e.offset == o;
    if entries.len() == 0 {
        reveal(Seq::filter);
        assert(file_group(entries, f) =~= Seq::<RZDataView>::empty());
    } else {
        let rest = entries.drop_last();
        lemma_group_stable(rest, f, o);
        lemma_filter_push(rest, entries.last(), q);
        assert(rest.push(entries.last()) == entries);
        if entries.last().file == f {
            lemma_insert_filter_offset(file_group(rest, f), entries.last(), o);
        }
    }
}

/// The group of archive `f` has as many entries as the index has in `f`.
pub proof fn lemma_group_len(entries: Seq<RZDataView>, f: u8)
    ensures
        file_group(entries, f).len() == entries.filter(|e: RZDataView| e.file == f).len(),
    decreases entries.len(),
{
    let q = |e: RZDataView| e.file == f;
    if entries.len() == 0 {
        reveal(Seq::filter);
    } else {
        let rest = entries.drop_last();
        lemma_group_len(rest, f);
        lemma_filter_push(rest, entries.last(), q);
        assert(rest.push(entries.last()) == entries);
        if entries.last().file == f {
            lemma_insert_len(file_group(rest, f), entries.last());
        }
    }
}


/// The number of entries in the eight groups together.
pub open spec fn grouped_count(entries: Seq<RZDataView>) -> nat {
    file_group(entries, 1).len() + file_group(entries, 2).len() + file_group(entries, 3).len()
        + file_group(entries, 4).len() + file_group(entries, 5).len() + file_group(entries, 6).len()
        + file_group(entries, 7).len() + file_group(entries, 8).len()
}

/// When every entry lies in one of the archives 1 to 8, the eight groups
/// together hold each entry once: their sizes add up to the number of
/// entries.
pub proof fn lemma_groups_partition(entries: Seq<RZDataView>)
    requires
        forall|i: int| 0 <= i < entries.len() ==> 1 <= (#[trigger] entries[i]).file <= 8,
    ensures
        grouped_count(entries) == entries.len(),
    decreases entries.len(),
{
    if entries.len() > 0 {
        let rest = entries.drop_last();
        let e = entries.last();
        assert forall|i: int| 0 <= i < rest.len() implies 1 <= (#[trigger] rest[i]).file <= 8 by {
            assert(rest[i] == entries[i]);
        }
        lemma_groups_partition(rest);
        assert(1 <= entries[entries.len() - 1].file <= 8);
        lemma_insert_len(file_group(rest, e.file), e);
    }
}

} // verus!
