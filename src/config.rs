use vstd::prelude::*;

verus! {

/// The identities held by a list of strings.
pub open spec fn keys_view(v: Seq<String>) -> Seq<Seq<char>> {
    v.map_values(|s: String| s@)
}

/// What `serde_json::to_vec` produces for a list of strings: the bytes of a
/// JSON array of strings.
pub uninterp spec fn encoded_keys(keys: Seq<Seq<char>>) -> Seq<u8>;

/// What `serde_json::from_slice::<Vec<String>>` reads from the given bytes:
/// the strings of a JSON array of strings, or nothing when the bytes are not one.
pub uninterp spec fn decoded_keys(bytes: Seq<u8>) -> Option<Seq<Seq<char>>>;

/// Relies on `serde_json::to_vec`: the JSON encoding of a list of strings,
/// which depends on the strings alone. It cannot fail here: strings always
/// serialise, and writing into a `Vec` raises no I/O error.
#[verifier::external_body]
fn encode_keys(keys: &[String]) -> (r: Option<Vec<u8>>)
    ensures
        r is Some,
        r.unwrap()@ == encoded_keys(keys_view(keys@)),
{
    serde_json::to_vec(keys).ok()
}

/// Relies on `serde_json::from_slice`: the list of strings that a JSON
/// document holds, which depends on the bytes alone.
#[verifier::external_body]
fn decode_keys(bytes: &[u8]) -> (r: Option<Vec<String>>)
    ensures
        match r {
            Some(v) => decoded_keys(bytes@) == Some(keys_view(v@)),
            None => decoded_keys(bytes@) is None,
        },
{
    serde_json::from_slice::<Vec<String>>(bytes).ok()
}

/// The identities that a checkpoint file holds: its list when it reads as
/// one, else none (a missing or malformed file starts an empty ledger).
pub open spec fn stored_keys(bytes: Seq<u8>) -> Seq<Seq<char>> {
    match decoded_keys(bytes) {
        Some(keys) => keys,
        None => Seq::empty(),
    }
}

/// Where the failure ledger is cut when the last `k` entries are set aside.
pub open spec fn split_point(len: nat, k: nat) -> nat {
    if k <= len {
        (len - k) as nat
    } else {
        0
    }
}

/// The failure entries that stay in the ledger when a save sets aside the
/// trailing `not_the_last` entries.
pub open spec fn kept_failures(failed: Seq<Seq<char>>, not_the_last: Option<usize>) -> Seq<Seq<char>> {
    match not_the_last {
        Some(k) => failed.subrange(0, split_point(failed.len(), k as nat) as int),
        None => failed,
    }
}

/// The trailing failure entries that a save sets aside.
pub open spec fn removed_failures(failed: Seq<Seq<char>>, k: nat) -> Seq<Seq<char>> {
    failed.subrange(split_point(failed.len(), k) as int, failed.len() as int)
}

/// Setting aside the last `k` of the `l` recorded failures (`k <= l`) leaves
/// `l - k` entries for the failure file and `k` for the set-aside file, and
/// the two, in that order, make up the ledger again: each entry lands in
/// exactly one of them.
pub proof fn lemma_quarantine_partition(failed: Seq<Seq<char>>, k: usize)
    requires
        k <= failed.len(),
    ensures
        kept_failures(failed, Some(k)).len() == failed.len() - k,
        removed_failures(failed, k as nat).len() == k,
        kept_failures(failed, Some(k)) + removed_failures(failed, k as nat) == failed,
{
    assert(kept_failures(failed, Some(k)) + removed_failures(failed, k as nat) =~= failed);
}

/// Cuts the failure ledger for a save: the entries that stay, and the
/// trailing `not_the_last` entries that are set aside (all of them when
/// there are fewer; none when no count is given).
pub fn quarantine_split(failed: &[String], not_the_last: Option<usize>) -> (r: (&[String], &[String]))
    ensures
        keys_view(r.0@) == kept_failures(keys_view(failed@), not_the_last),
        match not_the_last {
            Some(k) => keys_view(r.1@) == removed_failures(keys_view(failed@), k as nat),
            None => r.1@.len() == 0,
        },
{
    let mid: usize = match not_the_last {
        Some(k) => failed.len().saturating_sub(k),
        None => failed.len(),
    };
    let (kept, removed) = failed.split_at(mid);
    proof {
        assert(keys_view(kept@) =~= kept_failures(keys_view(failed@), not_the_last));
        if let Some(k) = not_the_last {
            assert(keys_view(removed@) =~= removed_failures(keys_view(failed@), k as nat));
        }
    }
    (kept, removed)
}

/// The bytes of the checkpoint files that one save writes.
pub struct CheckpointFiles {
    /// The completed identities.
    pub downloaded: Vec<u8>,
    /// The failed identities that later runs skip.
    pub failed: Vec<u8>,
    /// The trailing failures set aside, when the save sets some aside.
    pub removed: Option<Vec<u8>>,
}

/// The contents of the checkpoint files: downloaded, failed, removed.
pub struct FilesView {
    pub downloaded: Seq<u8>,
    pub failed: Seq<u8>,
    pub removed: Option<Seq<u8>>,
}

impl View for CheckpointFiles {
    type V = FilesView;

    open spec fn view(&self) -> FilesView {
        FilesView {
            downloaded: self.downloaded@,
            failed: self.failed@,
            removed: match self.removed {
                Some(b) => Some(b@),
                None => None,
            },
        }
    }
}

/// What a save of the ledger `(downloaded, failed)` writes: the encoded
/// completed list, the encoded failures that stay, and, when a count is
/// given, the encoded failures set aside.
pub open spec fn save_result(
    downloaded: Seq<Seq<char>>,
    failed: Seq<Seq<char>>,
    not_the_last: Option<usize>,
) -> FilesView {
    FilesView {
        downloaded: encoded_keys(downloaded),
        failed: encoded_keys(kept_failures(failed, not_the_last)),
        removed: match not_the_last {
            Some(k) => Some(encoded_keys(removed_failures(failed, k as nat))),
            None => None,
        },
    }
}

/// The ledger of a run: which symbols completed and which failed.
pub trait Config: Sized {
    /// The completed identities, in the order they were recorded.
    spec fn downloaded_keys(&self) -> Seq<Seq<char>>;

    /// The failed identities, in the order they were recorded.
    spec fn failed_keys(&self) -> Seq<Seq<char>>;

    /// Encodes the ledger for persistence; with `Some(k)` the last `k`
    /// failures are set aside in a file of their own and left out of the
    /// failure file.
    fn save(&self, not_the_last: Option<usize>) -> (r: CheckpointFiles)
        ensures
            r@ == save_result(self.downloaded_keys(), self.failed_keys(), not_the_last),
    ;

    /// Reads the ledger from the contents of the two checkpoint files.
    fn load(downloaded: &[u8], failed: &[u8]) -> (r: Self)
        ensures
            r.downloaded_keys() == stored_keys(downloaded@),
            r.failed_keys() == stored_keys(failed@),
    ;

    /// All identities that a resumed run skips.
    fn get_filter(&self) -> (r: Vec<String>)
        ensures
            keys_view(r@) == self.downloaded_keys() + self.failed_keys(),
    ;

    /// Records a failed identity.
    fn append_failure(&mut self, value: String)
        ensures
            final(self).failed_keys() == old(self).failed_keys().push(value@),
            final(self).downloaded_keys() == old(self).downloaded_keys(),
    ;

    /// Records a completed identity.
    fn append_download(&mut self, value: String)
        ensures
            final(self).downloaded_keys() == old(self).downloaded_keys().push(value@),
            final(self).failed_keys() == old(self).failed_keys(),
    ;
}

/// The in-memory ledger, held by the scheduler behind one lock.
pub struct SyncedConfig {
    pub downloaded: Vec<String>,
    pub failed: Vec<String>,
}

fn keys_of_file(bytes: &[u8]) -> (r: Vec<String>)
    ensures
        keys_view(r@) == stored_keys(bytes@),
{
    match decode_keys(bytes) {
        Some(keys) => keys,
        None => Vec::new(),
    }
}

impl Config for SyncedConfig {
    open spec fn downloaded_keys(&self) -> Seq<Seq<char>> {
        keys_view(self.downloaded@)
    }

    open spec fn failed_keys(&self) -> Seq<Seq<char>> {
        keys_view(self.failed@)
    }

    fn save(&self, not_the_last: Option<usize>) -> (r: CheckpointFiles) {
        let (kept, removed) = quarantine_split(self.failed.as_slice(), not_the_last);
        let downloaded = encode_keys(self.downloaded.as_slice()).unwrap();
        let failed = encode_keys(kept).unwrap();
        let removed = match not_the_last {
            Some(_) => Some(encode_keys(removed).unwrap()),
            None => None,
        };
        CheckpointFiles { downloaded, failed, removed }
    }

    fn load(downloaded: &[u8], failed: &[u8]) -> (r: Self) {
        SyncedConfig { downloaded: keys_of_file(downloaded), failed: keys_of_file(failed) }
    }

    fn get_filter(&self) -> (r: Vec<String>) {
        let mut r: Vec<String> = Vec::with_capacity(self.downloaded.len());
        let mut i: usize = 0;
        while i < self.downloaded.len()
            invariant
                i <= self.downloaded.len(),
                r@ =~= self.downloaded@.subrange(0, i as int),
            decreases self.downloaded.len() - i,
        {
            r.push(self.downloaded[i].clone());
            i = i + 1;
        }
        let mut j: usize = 0;
        while j < self.failed.len()
            invariant
                i == self.downloaded.len(),
                j <= self.failed.len(),
                r@ =~= self.downloaded@ + self.failed@.subrange(0, j as int),
            decreases self.failed.len() - j,
        {
            r.push(self.failed[j].clone());
            j = j + 1;
        }
        proof {
            assert(self.downloaded@.subrange(0, i as int) =~= self.downloaded@);
            assert(self.failed@.subrange(0, j as int) =~= self.failed@);
            assert(keys_view(r@) =~= keys_view(self.downloaded@) + keys_view(self.failed@));
        }
        r
    }

    fn append_failure(&mut self, value: String) {
        self.failed.push(value);
        proof {
            assert(keys_view(self.failed@) =~= keys_view(old(self).failed@).push(value@));
        }
    }

    fn append_download(&mut self, value: String) {
        self.downloaded.push(value);
        proof {
            assert(keys_view(self.downloaded@) =~= keys_view(old(self).downloaded@).push(value@));
        }
    }
}

/// The checkpoint files that could not be written in one save.
#[derive(PartialEq, Eq, Structural, Clone, Copy, Debug)]
pub struct SaveFailure {
    pub downloaded: bool,
    pub failed: bool,
    pub removed: bool,
}

/// Turns the outcome of writing each checkpoint file into the outcome of the
/// save: success when every file was written, else the files that were not.
pub fn save_status(downloaded_written: bool, failed_written: bool, removed_written: bool) -> (r:
    Result<(), SaveFailure>)
    ensures
        r is Ok <==> downloaded_written && failed_written && removed_written,
        r matches Err(f) ==> f.downloaded == !downloaded_written && f.failed == !failed_written
            && f.removed == !removed_written,
{
    if downloaded_written && failed_written && removed_written {
        Ok(())
    } else {
        Err(
            SaveFailure {
                downloaded: !downloaded_written,
                failed: !failed_written,
                removed: !removed_written,
            },
        )
    }
}

} // verus!
