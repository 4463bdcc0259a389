//! What is written to files, and in which steps.

use vstd::prelude::*;
use vstd::slice::slice_to_vec;
use vstd::utf8::encode_utf8;

use crate::keys::{Algorithm, KeyPair, KeyPairError, are_key_files, generate_key_pair};

verus! {

/// The permissions of a private key file: its owner may read and write it.
pub const PRIVATE_KEY_MODE: u32 = 0o600;

/// What is added to the name of a file to name its temporary sibling.
pub const TEMP_SUFFIX: &'static str = ".tmp";

/// A file to write.
pub struct NewFile {
    pub contents: Vec<u8>,
    /// The permissions of the file, where they are set.
    pub mode: Option<u32>,
    /// Whether to fail where the file exists.
    pub create_new: bool,
}

/// What to write of a new pair of keys: first the private key file, then the
/// public one.
pub struct KeyFiles {
    pub private: NewFile,
    pub public: NewFile,
}

/// Why no key files are written.
#[derive(Clone, Copy, Debug, PartialEq, Eq, Structural)]
pub enum GenerateError {
    /// The private key file exists.
    PrivateExists,
    /// The public key file exists.
    PublicExists,
    /// There is no pair of keys to write.
    Pair(KeyPairError),
}

impl GenerateError {
    /// What to tell the user.
    pub open spec fn text(&self) -> Seq<char> {
        match self {
            GenerateError::PrivateExists => "Refusing to overwrite existing file"@,
            GenerateError::PublicExists => "Refusing to overwrite existing file"@,
            GenerateError::Pair(e) => e.text(),
        }
    }

    /// What to tell the user.
    pub fn message(&self) -> (message: &'static str)
        ensures
            message@ == self.text(),
    {
        match self {
            GenerateError::PrivateExists => "Refusing to overwrite existing file",
            GenerateError::PublicExists => "Refusing to overwrite existing file",
            GenerateError::Pair(e) => e.message(),
        }
    }
}

/// The private key file with that text: a new file, never one that exists, that
/// is for its owner only.
pub fn write_private_key(contents: &str) -> (file: NewFile)
    ensures
        file.contents@ == encode_utf8(contents@),
        file.mode == Some(PRIVATE_KEY_MODE),
        file.create_new,
{
    NewFile {
        contents: slice_to_vec(contents.as_bytes()),
        mode: Some(PRIVATE_KEY_MODE),
        create_new: true,
    }
}

/// The public key file with that text: a new file, never one that exists.
fn write_public_key(contents: &str) -> (file: NewFile)
    ensures
        file.contents@ == encode_utf8(contents@),
        file.mode is None,
        file.create_new,
{
    NewFile { contents: slice_to_vec(contents.as_bytes()), mode: None, create_new: true }
}

/// What to write of a pair of keys.
pub fn key_files(pair: &KeyPair) -> (files: KeyFiles)
    ensures
        files.private.contents@ == encode_utf8(pair.private_pem@),
        files.private.mode == Some(PRIVATE_KEY_MODE),
        files.private.create_new,
        files.public.contents@ == encode_utf8(pair.public_pem@),
        files.public.mode is None,
        files.public.create_new,
{
    KeyFiles {
        private: write_private_key(pair.private_pem.as_str()),
        public: write_public_key(pair.public_pem.as_str()),
    }
}

/// The files hold a new pair of keys of the scheme, and are written as key files
/// are.
pub open spec fn are_new_key_files(files: KeyFiles, algorithm: Algorithm) -> bool {
    &&& files.private.mode == Some(PRIVATE_KEY_MODE)
    &&& files.private.create_new
    &&& files.public.mode is None
    &&& files.public.create_new
    &&& exists|private_pem: Seq<char>, public_pem: Seq<char>|
        {
            &&& #[trigger] are_key_files(algorithm, private_pem, public_pem)
            &&& files.private.contents@ == encode_utf8(private_pem)
            &&& files.public.contents@ == encode_utf8(public_pem)
        }
}

/// Makes a new pair of keys and says what to write, unless one of the two files
/// exists: key material is never overwritten, not even where a file comes into
/// being in between. There always is a pair for Ed25519.
pub fn generate_keys(private_exists: bool, public_exists: bool, algorithm: Algorithm) -> (files: Result<
    KeyFiles,
    GenerateError,
>)
    ensures
        files == Err::<KeyFiles, GenerateError>(GenerateError::PrivateExists) <==> private_exists,
        files == Err::<KeyFiles, GenerateError>(GenerateError::PublicExists) <==> !private_exists
            && public_exists,
        !private_exists && !public_exists && algorithm is Ed25519 ==> files is Ok,
        files matches Err(GenerateError::Pair(e)) ==> algorithm is Rsa && e == KeyPairError::PrivateExport,
        files matches Ok(f) ==> are_new_key_files(f, algorithm),
{
    if private_exists {
        return Err(GenerateError::PrivateExists);
    }
    if public_exists {
        return Err(GenerateError::PublicExists);
    }
    match generate_key_pair(algorithm) {
        Ok(pair) => Ok(key_files(&pair)),
        Err(e) => Err(GenerateError::Pair(e)),
    }
}

/// A step of replacing a file.
#[derive(Clone, Copy, Debug, PartialEq, Eq, Structural)]
pub enum WriteStep {
    /// Write the contents to the temporary file.
    WriteTemp,
    /// Rename the temporary file to the file.
    Rename,
    /// Remove the temporary file.
    RemoveTemp,
    /// Nothing is left to do; whether the file was replaced.
    Finish(bool),
}

/// The step after one that succeeded or failed.
pub open spec fn next_step(step: WriteStep, succeeded: bool) -> WriteStep {
    match (step, succeeded) {
        (WriteStep::WriteTemp, true) => WriteStep::Rename,
        (WriteStep::WriteTemp, false) => WriteStep::Finish(false),
        (WriteStep::Rename, true) => WriteStep::Finish(true),
        (WriteStep::Rename, false) => WriteStep::RemoveTemp,
        (WriteStep::RemoveTemp, _) => WriteStep::Finish(false),
        (WriteStep::Finish(replaced), _) => WriteStep::Finish(replaced),
    }
}

/// Replaces a file in one go: its new contents are written to a temporary
/// sibling, which is then renamed to it, so that the file is never cut short. The
/// first step is to write the temporary file; this says which step follows one
/// that succeeded or failed.
pub fn write_atomic(step: WriteStep, succeeded: bool) -> (next: WriteStep)
    ensures
        next == next_step(step, succeeded),
{
    match step {
        WriteStep::WriteTemp => if succeeded {
            WriteStep::Rename
        } else {
            WriteStep::Finish(false)
        },
        WriteStep::Rename => if succeeded {
            WriteStep::Finish(true)
        } else {
            WriteStep::RemoveTemp
        },
        WriteStep::RemoveTemp => WriteStep::Finish(false),
        WriteStep::Finish(replaced) => WriteStep::Finish(replaced),
    }
}

/// A file and its temporary sibling: the contents of each, where it exists.
pub struct Siblings {
    pub file: Option<Seq<u8>>,
    pub temp: Option<Seq<u8>>,
}

/// What a step does to the two files. Where writing the temporary file fails,
/// anything may be left in it.
pub open spec fn step_effect(
    step: WriteStep,
    succeeded: bool,
    contents: Seq<u8>,
    before: Siblings,
    after: Siblings,
) -> bool {
    match (step, succeeded) {
        (WriteStep::WriteTemp, true) => after == (Siblings { file: before.file, temp: Some(contents) }),
        (WriteStep::WriteTemp, false) => after.file == before.file,
        (WriteStep::Rename, true) => after == (Siblings { file: before.temp, temp: None }),
        (WriteStep::RemoveTemp, true) => after == (Siblings { file: before.file, temp: None }),
        _ => after == before,
    }
}

/// The step that comes after the first `n` steps, given how each of them went.
pub open spec fn step_after(went: Seq<bool>, n: nat) -> WriteStep
    decreases n,
{
    if n == 0 {
        WriteStep::WriteTemp
    } else {
        next_step(step_after(went, (n - 1) as nat), went[n - 1])
    }
}

/// The files as they are before and after each step.
pub open spec fn is_run(contents: Seq<u8>, went: Seq<bool>, files: Seq<Siblings>) -> bool {
    &&& files.len() == went.len() + 1
    &&& forall|i: int|
        0 <= i < went.len() ==> step_effect(
            step_after(went, i as nat),
            #[trigger] went[i],
            contents,
            files[i],
            files[i + 1],
        )
}

/// Replacing a file is all or nothing, wherever it stops: at every point the file
/// has its old contents or all of the new ones. Where it ends in success the file
/// has the new contents and no temporary file is left. Where it ends in failure
/// the file is as it was, and the temporary file that could not be renamed is
/// gone, unless it could not be removed either. It ends after three steps at most.
pub proof fn lemma_write_is_atomic(contents: Seq<u8>, went: Seq<bool>, files: Seq<Siblings>, n: nat)
    requires
        is_run(contents, went, files),
        n <= went.len(),
    ensures
        files[n as int].file == files[0].file || files[n as int].file == Some(contents),
        step_after(went, n) == WriteStep::Finish(true) ==> files[n as int] == (Siblings {
            file: Some(contents),
            temp: None,
        }),
        step_after(went, n) != WriteStep::Finish(true) ==> files[n as int].file == files[0].file,
        step_after(went, n) is Rename ==> files[n as int].temp == Some(contents),
        n > 0 && step_after(went, (n - 1) as nat) is RemoveTemp && went[n - 1] ==> files[n as int].temp is None,
        n >= 3 ==> step_after(went, n) is Finish,
    decreases n,
{
    if n > 0 {
        let m = (n - 1) as nat;
        lemma_write_is_atomic(contents, went, files, m);
        assert(step_effect(step_after(went, m), went[m as int], contents, files[m as int], files[n as int]));
        if n == 3 {
            reveal_with_fuel(step_after, 4);
        }
    }
}

} // verus!
