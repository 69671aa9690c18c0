//! The output writer's decision logic: write a destination only when its
//! content would actually change, and plan one generation of backup.
//!
//! Reading, renaming and writing the files themselves happens outside
//! this crate; here the digests are computed and compared, and the plan —
//! skip, back up, write — is decided. A file is (re)written exactly when
//! no existing digest equals the new content's digest.

use vstd::prelude::*;

verus! {

/// The digest that the content hash yields for the given bytes.
pub uninterp spec fn sha256_of(bytes: Seq<u8>) -> Seq<u8>;

#[verifier::external_type_specification]
#[verifier::external_body]
pub struct ExSha256(sha2::Sha256);

/// Relies on sha2::Sha256::new: a fresh SHA-256 hasher state.
#[verifier::external_body]
fn sha256_new() -> (h: sha2::Sha256) {
    <sha2::Sha256 as sha2::Digest>::new()
}

/// A streaming content hasher over sha2's SHA-256. `fed()` is the byte
/// sequence taken in so far; the final digest covers exactly those bytes,
/// however they were chunked.
pub struct ContentHasher {
    inner: sha2::Sha256,
    fed: Ghost<Seq<u8>>,
}

impl ContentHasher {
    /// The bytes this hasher has taken in so far.
    pub closed spec fn fed(&self) -> Seq<u8> {
        self.fed@
    }

    /// A fresh hasher; it has taken in nothing.
    pub fn new() -> (h: ContentHasher)
        ensures
            h.fed() == Seq::<u8>::empty(),
    {
        ContentHasher { inner: sha256_new(), fed: Ghost(Seq::empty()) }
    }

    /// Relies on sha2::Sha256::update: feeding a chunk appends it to the
    /// bytes the digest will cover.
    #[verifier::external_body]
    pub fn update(&mut self, chunk: &[u8])
        ensures
            final(self).fed() == old(self).fed() + chunk@,
    {
        <sha2::Sha256 as sha2::Digest>::update(&mut self.inner, chunk);
    }

    /// Relies on sha2::Sha256::finalize: the 32-byte digest of all bytes
    /// taken in, a function of those bytes alone.
    #[verifier::external_body]
    pub fn finalize(self) -> (digest: Vec<u8>)
        ensures
            digest@ == sha256_of(self.fed()),
            digest@.len() == 32,
    {
        <sha2::Sha256 as sha2::Digest>::finalize(self.inner).to_vec()
    }
}

/// The digest of one byte buffer, streamed through the hasher in one
/// piece.
pub fn hash_bytes(bytes: &[u8]) -> (digest: Vec<u8>)
    ensures
        digest@ == sha256_of(bytes@),
        digest@.len() == 32,
{
    let mut hasher = ContentHasher::new();
    hasher.update(bytes);
    proof {
        assert(Seq::<u8>::empty() + bytes@ =~= bytes@);
    }
    hasher.finalize()
}

/// Decides whether two byte strings are equal.
pub fn bytes_equal(a: &[u8], b: &[u8]) -> (r: bool)
    ensures
        r == (a@ == b@),
{
    if a.len() != b.len() {
        return false;
    }
    let mut i: usize = 0;
    while i < a.len()
        invariant
            i <= a@.len(),
            a@.len() == b@.len(),
            forall|j: int| 0 <= j < i ==> a@[j] == b@[j],
        decreases a@.len() - i,
    {
        if a[i] != b[i] {
            return false;
        }
        i = i + 1;
    }
    proof {
        assert(a@ =~= b@);
    }
    true
}

/// What the writer is to do for one destination.
#[derive(Debug, PartialEq, Eq, Structural, Clone, Copy)]
pub struct OutputPlan {
    /// The existing content already equals the new content; nothing else
    /// is done.
    pub unchanged: bool,
    /// Rename the existing file to its backup name before writing.
    pub do_backup: bool,
    /// Write the new content to the destination.
    pub do_write: bool,
}

/// The writer's decision, given the existing file's digest (`None` when
/// the file is absent), the new content, and the two switches.
pub open spec fn spec_plan(
    existing_digest: Option<Seq<u8>>,
    contents: Seq<u8>,
    nobackup: bool,
    dryrun: bool,
) -> OutputPlan {
    let unchanged = existing_digest is Some && existing_digest->0 == sha256_of(contents);
    OutputPlan {
        unchanged,
        do_backup: !unchanged && !dryrun && !nobackup && existing_digest is Some,
        do_write: !unchanged && !dryrun,
    }
}

/// The view of an optional digest buffer.
pub open spec fn digest_view(d: Option<Vec<u8>>) -> Option<Seq<u8>> {
    match d {
        Option::Some(v) => Option::Some(v@),
        Option::None => Option::None,
    }
}

/// Compares the existing file's digest with the new content's digest and
/// plans the write: no effect when the digests are equal; otherwise a
/// write, preceded by a backup rotation when backups are on and a file
/// exists; and never any effect in dry-run mode, though the comparison
/// is still made.
pub fn plan_output(
    existing_digest: &Option<Vec<u8>>,
    contents: &[u8],
    nobackup: bool,
    dryrun: bool,
) -> (p: OutputPlan)
    ensures
        p == spec_plan(digest_view(*existing_digest), contents@, nobackup, dryrun),
{
    let content_digest = hash_bytes(contents);
    let unchanged = match existing_digest {
        Some(d) => bytes_equal(d.as_slice(), content_digest.as_slice()),
        None => false,
    };
    OutputPlan {
        unchanged,
        do_backup: !unchanged && !dryrun && !nobackup && existing_digest.is_some(),
        do_write: !unchanged && !dryrun,
    }
}

/// Writing content that the destination already holds is a no-op: no
/// backup, no write, whatever the switches say.
pub proof fn lemma_rewrite_is_noop(contents: Seq<u8>, nobackup: bool, dryrun: bool)
    ensures
        spec_plan(Option::Some(sha256_of(contents)), contents, nobackup, dryrun) == (OutputPlan {
            unchanged: true,
            do_backup: false,
            do_write: false,
        }),
{
}

/// A fresh destination is always written, and there is nothing to back
/// up.
pub proof fn lemma_fresh_write(contents: Seq<u8>, nobackup: bool)
    ensures
        spec_plan(Option::None, contents, nobackup, false) == (OutputPlan {
            unchanged: false,
            do_backup: false,
            do_write: true,
        }),
{
}

/// A destination whose content differs is rewritten, and with backups on
/// the existing file is rotated to the backup name first.
pub proof fn lemma_changed_write(existing: Seq<u8>, contents: Seq<u8>)
    requires
        existing != sha256_of(contents),
    ensures
        spec_plan(Option::Some(existing), contents, false, false) == (OutputPlan {
            unchanged: false,
            do_backup: true,
            do_write: true,
        }),
{
}

/// Dry-run mode still compares digests and reaches the same verdict on
/// `unchanged`, but never writes and never backs up.
pub proof fn lemma_dry_run(existing_digest: Option<Seq<u8>>, contents: Seq<u8>, nobackup: bool)
    ensures
        !spec_plan(existing_digest, contents, nobackup, true).do_write,
        !spec_plan(existing_digest, contents, nobackup, true).do_backup,
        spec_plan(existing_digest, contents, nobackup, true).unchanged == spec_plan(
            existing_digest,
            contents,
            nobackup,
            false,
        ).unchanged,
{
}

} // verus!
