//! The encrypted store: where it lies, how its bytes are sealed under the
//! master password, and what comes of opening it.

use vstd::prelude::*;
use crate::servers::Server;

verus! {

/// `std::io::Error`, carried through as it is: an error of the operating system.
#[verifier::external_type_specification]
#[verifier::external_body]
pub struct ExIoError(std::io::Error);

/// `age::EncryptError`, carried through as it is: why an encryption failed.
#[verifier::external_type_specification]
#[verifier::external_body]
pub struct ExEncryptError(age::EncryptError);

/// Why the servers could not be loaded.
#[derive(Debug)]
pub enum LoadError {
    /// The file could not be read.
    Io(std::io::Error),
    /// The file does not open under the password.
    WrongPassword,
    /// The file opened, but does not hold a list of servers.
    Corrupt,
}

/// Why a plaintext was not encrypted.
#[derive(Debug)]
pub enum EncryptFailure {
    Age(age::EncryptError),
}

/// Why a ciphertext was not decrypted.
#[derive(Debug, Clone, Copy, PartialEq)]
pub enum DecryptFailure {
    /// The passphrase would take more work to check than this machine accepts:
    /// the work factor that the file names.
    ExcessiveWork { required: u8 },
    /// Not an `age` file, damaged, or sealed under another passphrase.
    Unreadable,
}

/// The plaintext that an `age` file holds under a passphrase, if it is such a
/// file and that is its passphrase: what `age::decrypt` returns with
/// `age::scrypt::Identity` where the work factor of the file is accepted.
pub uninterp spec fn age_plaintext(ciphertext: Seq<u8>, passphrase: Seq<char>) -> Option<Seq<u8>>;

/// The work factor that an `age` file sealed under a passphrase names in its
/// header, if it is such a file: what `age::decrypt` reports with
/// `age::scrypt::Identity` where it declines the work.
pub uninterp spec fn age_work_factor(ciphertext: Seq<u8>) -> Option<u8>;

/// The highest work factor that every machine accepts: the limit is at least
/// four above the lowest factor that `age` aims at, which is 10.
pub const SURE_WORK_FACTOR: u8 = 14;

/// Whether a machine may decline to decrypt the file for the work it takes.
pub open spec fn may_be_declined(ciphertext: Seq<u8>) -> bool {
    age_work_factor(ciphertext) matches Some(n) && n > SURE_WORK_FACTOR
}

/// What was found where the store should be.
#[derive(Debug)]
pub enum StoreFile {
    /// There is no such file.
    Missing,
    /// There is one, but reading it failed.
    Unreadable(std::io::Error),
    /// Its bytes.
    Bytes(Vec<u8>),
}

/// A store that could be opened.
#[derive(Debug)]
pub enum Loaded {
    /// These servers.
    Servers(Vec<Server>),
    /// The decrypted bytes, which a list of servers is still to be read from.
    Plaintext(Vec<u8>),
}

/// What encrypting returns: always a ciphertext, one that holds the plaintext
/// under the password.
pub open spec fn sealed(
    plaintext: Seq<u8>,
    password: Seq<char>,
    r: Result<Vec<u8>, EncryptFailure>,
) -> bool {
    r matches Ok(c) && age_plaintext(c@, password) == Some(plaintext)
}

/// What decrypting may return: the plaintext that the ciphertext holds under
/// the password, or a failure where it holds none. The work may be declined
/// only where the file names a work factor above the sure one; then neither is
/// known.
pub open spec fn opened(
    ciphertext: Seq<u8>,
    password: Seq<char>,
    r: Result<Vec<u8>, DecryptFailure>,
) -> bool {
    match r {
        Ok(p) => age_plaintext(ciphertext, password) == Some(p@),
        Err(DecryptFailure::Unreadable) => age_plaintext(ciphertext, password) is None,
        Err(DecryptFailure::ExcessiveWork { required }) => {
            age_work_factor(ciphertext) == Some(required) && required > SURE_WORK_FACTOR
        },
    }
}

/// `age::encrypt` with `age::scrypt::Recipient`: encrypts to a passphrase. It
/// succeeds, since there is one recipient, which is a passphrase, and the
/// output goes to a `Vec`, where no write fails. The ciphertext holds the
/// plaintext under that passphrase. Which of the many such ciphertexts it is
/// rests on random numbers and on the machine's speed, and is not stated.
#[verifier::external_body]
fn age_encrypt(plaintext: &[u8], passphrase: &str) -> (r: Result<Vec<u8>, age::EncryptError>)
    ensures
        r is Ok,
        age_plaintext(r->Ok_0@, passphrase@) == Some(plaintext@),
{
    let secret = age::secrecy::SecretString::from(passphrase.to_owned());
    age::encrypt(&age::scrypt::Recipient::new(secret), plaintext)
}

/// `age::decrypt` with `age::scrypt::Identity`: decrypts with a passphrase. It
/// returns the plaintext that the ciphertext holds under the passphrase, and
/// fails where it holds none. `ExcessiveWork` says nothing of the plaintext: it
/// reports the work factor that the file names, which is then above the limit.
/// The limit follows the machine's speed and is never below the sure work
/// factor; which files above that are declined is not stated. Nor is that a
/// ciphertext holds nothing under any other passphrase: that rests on chance,
/// and a passphrase that differs only by NULs at its end may open it too.
#[verifier::external_body]
fn age_decrypt(ciphertext: &[u8], passphrase: &str) -> (r: Result<Vec<u8>, DecryptFailure>)
    ensures
        match r {
            Ok(p) => age_plaintext(ciphertext@, passphrase@) == Some(p@),
            Err(DecryptFailure::Unreadable) => age_plaintext(ciphertext@, passphrase@) is None,
            Err(DecryptFailure::ExcessiveWork { required }) => {
                age_work_factor(ciphertext@) == Some(required) && required > SURE_WORK_FACTOR
            },
        },
{
    let secret = age::secrecy::SecretString::from(passphrase.to_owned());
    match age::decrypt(&age::scrypt::Identity::new(secret), ciphertext) {
        Ok(plaintext) => Ok(plaintext),
        Err(age::DecryptError::ExcessiveWork { required, .. }) => {
            Err(DecryptFailure::ExcessiveWork { required })
        },
        Err(_) => Err(DecryptFailure::Unreadable),
    }
}

/// `dirs::config_dir`: the user's configuration directory as the bytes of its
/// path, if there is one. It depends on the environment, so nothing is said
/// of it.
#[verifier::external_body]
fn user_config_dir() -> (r: Option<Vec<u8>>) {
    match dirs::config_dir() {
        Some(path) => Some(path.into_os_string().into_encoded_bytes()),
        None => None,
    }
}

/// What encrypting comes to, given what `age` returned.
pub fn encrypted(r: Result<Vec<u8>, age::EncryptError>) -> (out: Result<Vec<u8>, EncryptFailure>)
    ensures
        match r {
            Ok(c) => out == Ok::<Vec<u8>, EncryptFailure>(c),
            Err(e) => out == Err::<Vec<u8>, EncryptFailure>(EncryptFailure::Age(e)),
        },
{
    match r {
        Ok(c) => Ok(c),
        Err(e) => Err(EncryptFailure::Age(e)),
    }
}

/// Encrypts `plaintext` under `password`.
pub fn encrypt(plaintext: &[u8], password: &str) -> (r: Result<Vec<u8>, EncryptFailure>)
    ensures
        sealed(plaintext@, password@, r),
{
    encrypted(age_encrypt(plaintext, password))
}

/// Decrypts `ciphertext` with `password`.
pub fn decrypt(ciphertext: &[u8], password: &str) -> (r: Result<Vec<u8>, DecryptFailure>)
    ensures
        opened(ciphertext@, password@, r),
{
    age_decrypt(ciphertext, password)
}

/// What opening the store comes to once its bytes were decrypted, or were not:
/// every failure counts as a wrong password.
pub fn unsealed(decrypted: Result<Vec<u8>, DecryptFailure>) -> (r: Result<Loaded, LoadError>)
    ensures
        match decrypted {
            Ok(p) => r == Ok::<Loaded, LoadError>(Loaded::Plaintext(p)),
            Err(_) => r == Err::<Loaded, LoadError>(LoadError::WrongPassword),
        },
{
    match decrypted {
        Ok(p) => Ok(Loaded::Plaintext(p)),
        Err(_) => Err(LoadError::WrongPassword),
    }
}

/// What opening the store may return. With the bytes of a file, it is the
/// plaintext that they hold under the password, or a wrong password: that where
/// they hold none, or where the machine may decline the work.
pub open spec fn loads(
    file: StoreFile,
    password: Seq<char>,
    r: Result<Loaded, LoadError>,
) -> bool {
    match file {
        StoreFile::Missing => r matches Ok(Loaded::Servers(list)) && list@.len() == 0,
        StoreFile::Unreadable(e) => r == Err::<Loaded, LoadError>(LoadError::Io(e)),
        StoreFile::Bytes(b) => match r {
            Ok(Loaded::Plaintext(p)) => age_plaintext(b@, password) == Some(p@),
            Err(LoadError::WrongPassword) => {
                age_plaintext(b@, password) is None || may_be_declined(b@)
            },
            _ => false,
        },
    }
}

/// Opens the store. A missing file is an empty list; one that cannot be read
/// is an I/O error; one that does not decrypt is a wrong password.
pub fn load(file: StoreFile, password: &str) -> (r: Result<Loaded, LoadError>)
    ensures
        loads(file, password@, r),
{
    match file {
        StoreFile::Missing => Ok(Loaded::Servers(Vec::new())),
        StoreFile::Unreadable(e) => Err(LoadError::Io(e)),
        StoreFile::Bytes(b) => unsealed(decrypt(b.as_slice(), password)),
    }
}

/// What opening the store comes to once its plaintext was read as a list of
/// servers, or could not be.
pub fn decoded(parsed: Option<Vec<Server>>) -> (r: Result<Vec<Server>, LoadError>)
    ensures
        match parsed {
            Some(list) => r == Ok::<Vec<Server>, LoadError>(list),
            None => r == Err::<Vec<Server>, LoadError>(LoadError::Corrupt),
        },
{
    match parsed {
        Some(list) => Ok(list),
        None => Err(LoadError::Corrupt),
    }
}

/// The path of `name` in the directory `dir`.
pub open spec fn child_path(dir: Seq<u8>, name: Seq<char>) -> Seq<u8> {
    let base = if dir.len() == 0 || dir.last() == 0x2f {
        dir
    } else {
        dir.push(0x2f)
    };
    base + vstd::utf8::encode_utf8(name)
}

/// The program's directory within the user's configuration directory, or
/// within the current one where there is none.
pub open spec fn app_dir(config_home: Option<Seq<u8>>) -> Seq<u8> {
    child_path(
        match config_home {
            Some(dir) => dir,
            None => vstd::utf8::encode_utf8("."@),
        },
        "ssh-manager"@,
    )
}

/// The bytes as a view of an optional path.
pub open spec fn path_view(path: Option<Vec<u8>>) -> Option<Seq<u8>> {
    match path {
        Some(p) => Some(p@),
        None => None,
    }
}

fn child(dir: Vec<u8>, name: &str) -> (r: Vec<u8>)
    ensures
        r@ == child_path(dir@, name@),
{
    let mut r = dir;
    if r.len() > 0 && r[r.len() - 1] != 0x2f {
        r.push(0x2f);
    }
    let ghost base = r@;
    let bytes = name.as_bytes();
    let mut i: usize = 0;
    while i < bytes.len()
        invariant
            i <= bytes@.len(),
            r@ == base + bytes@.take(i as int),
        decreases bytes@.len() - i,
    {
        r.push(bytes[i]);
        i = i + 1;
        assert(bytes@.take(i as int) == bytes@.take(i - 1).push(bytes@[i - 1]));
    }
    assert(bytes@.take(i as int) == bytes@);
    r
}

/// The program's directory, given the user's configuration directory.
pub fn config_dir_in(config_home: Option<Vec<u8>>) -> (r: Vec<u8>)
    ensures
        r@ == app_dir(path_view(config_home)),
{
    let base = match config_home {
        Some(dir) => dir,
        None => ".".as_bytes_vec(),
    };
    child(base, "ssh-manager")
}

/// The path of the encrypted store, given the user's configuration directory.
pub fn store_path_in(config_home: Option<Vec<u8>>) -> (r: Vec<u8>)
    ensures
        r@ == child_path(app_dir(path_view(config_home)), "servers.age"@),
{
    child(config_dir_in(config_home), "servers.age")
}

/// The path of the lockout state, given the user's configuration directory.
pub fn lockout_path_in(config_home: Option<Vec<u8>>) -> (r: Vec<u8>)
    ensures
        r@ == child_path(app_dir(path_view(config_home)), "lockout.json"@),
{
    child(config_dir_in(config_home), "lockout.json")
}

/// Whether `home` is an answer of the system to where the user's configuration
/// directory is: one that `user_config_dir` may return.
pub closed spec fn is_config_home(home: Option<Vec<u8>>) -> bool {
    call_ensures(user_config_dir, (), home)
}

/// The user's configuration directory as the bytes of its path, if there is
/// one, as the system gives it. Which it is depends on the environment.
pub fn config_home() -> (r: Option<Vec<u8>>)
    ensures
        is_config_home(r),
{
    let ask = user_config_dir;
    ask()
}

/// The path of the encrypted store, as bytes: `ssh-manager/servers.age` in
/// what `config_home` returns.
pub fn store_path() -> (r: Vec<u8>)
    ensures
        exists|home: Option<Vec<u8>>| #[trigger]
            call_ensures(config_home, (), home) && r@ == child_path(
                app_dir(path_view(home)),
                "servers.age"@,
            ),
{
    let ask = config_home;
    store_path_in(ask())
}

/// The path of the lockout state, as bytes: `ssh-manager/lockout.json` in
/// what `config_home` returns.
pub fn lockout_path() -> (r: Vec<u8>)
    ensures
        exists|home: Option<Vec<u8>>| #[trigger]
            call_ensures(config_home, (), home) && r@ == child_path(
                app_dir(path_view(home)),
                "lockout.json"@,
            ),
{
    let ask = config_home;
    lockout_path_in(ask())
}

/// What was sealed under a password comes back under it: opening returns the
/// same plaintext, or declines for the work it would take, and nothing else. It
/// declines only a ciphertext that names a work factor above the sure one.
pub proof fn law_open_gives_back_what_was_sealed(
    plaintext: Seq<u8>,
    password: Seq<char>,
    ciphertext: Vec<u8>,
    r: Result<Vec<u8>, DecryptFailure>,
)
    requires
        sealed(plaintext, password, Ok(ciphertext)),
        opened(ciphertext@, password, r),
    ensures
        match r {
            Ok(p) => p@ == plaintext,
            Err(f) => f is ExcessiveWork && may_be_declined(ciphertext@),
        },
{
}

/// A store saved under a password loads under it with what was saved. Where
/// it does not load, it names a work factor above the sure one and the work was
/// too much for the machine, which is reported as a wrong password; it is never
/// taken for corrupt.
pub proof fn law_load_gives_back_what_was_saved(
    plaintext: Seq<u8>,
    password: Seq<char>,
    ciphertext: Vec<u8>,
    r: Result<Loaded, LoadError>,
)
    requires
        sealed(plaintext, password, Ok(ciphertext)),
        loads(StoreFile::Bytes(ciphertext), password, r),
    ensures
        match r {
            Ok(Loaded::Plaintext(p)) => p@ == plaintext,
            Ok(Loaded::Servers(_)) => false,
            Err(e) => e == LoadError::WrongPassword && may_be_declined(ciphertext@),
        },
{
}

/// Two openings of one ciphertext with one password never disagree on what it
/// holds.
pub proof fn law_openings_agree(
    ciphertext: Seq<u8>,
    password: Seq<char>,
    a: Result<Vec<u8>, DecryptFailure>,
    b: Result<Vec<u8>, DecryptFailure>,
)
    requires
        opened(ciphertext, password, a),
        opened(ciphertext, password, b),
    ensures
        a is Ok && b is Ok ==> a->Ok_0@ == b->Ok_0@,
        a == Err::<Vec<u8>, DecryptFailure>(DecryptFailure::Unreadable) ==> b is Err,
{
}

/// The store and the lockout state are two different files of one directory.
pub proof fn law_store_and_lockout_apart(config_home: Option<Seq<u8>>)
    ensures
        child_path(app_dir(config_home), "servers.age"@) != child_path(
            app_dir(config_home),
            "lockout.json"@,
        ),
{
    reveal_strlit("servers.age");
    reveal_strlit("lockout.json");
    vstd::utf8::is_ascii_chars_encode_utf8("servers.age"@);
    vstd::utf8::is_ascii_chars_encode_utf8("lockout.json"@);
    let dir = app_dir(config_home);
    assert(child_path(dir, "servers.age"@).len() + 1 == child_path(dir, "lockout.json"@).len());
}

/// Encrypting succeeds, with a ciphertext that holds the whole plaintext under
/// the whole password.
pub proof fn law_sealed_holds_the_plaintext(
    plaintext: Seq<u8>,
    password: Seq<char>,
    r: Result<Vec<u8>, EncryptFailure>,
)
    requires
        sealed(plaintext, password, r),
    ensures
        r is Ok,
        age_plaintext(r->Ok_0@, password) == Some(plaintext),
{
}

/// Decrypting gives what the ciphertext holds under the password. It fails only
/// where that is nothing, or where the file names a work factor above 14.
pub proof fn law_opened_is_what_is_held(
    ciphertext: Seq<u8>,
    password: Seq<char>,
    r: Result<Vec<u8>, DecryptFailure>,
)
    requires
        opened(ciphertext, password, r),
    ensures
        r matches Ok(p) ==> age_plaintext(ciphertext, password) == Some(p@),
        r == Err::<Vec<u8>, DecryptFailure>(DecryptFailure::Unreadable) ==> age_plaintext(
            ciphertext,
            password,
        ) is None,
        r matches Err(DecryptFailure::ExcessiveWork { required }) ==> age_work_factor(ciphertext)
            == Some(required) && required > 14,
{
}

/// What opening the store may come to. Where there is no file, it is the empty
/// list; where the file could not be read, the error that came. From the bytes
/// of a file it is what they hold under the password, and a wrong password only
/// where that is nothing or where they name a work factor above 14.
pub proof fn law_what_loading_comes_to(
    file: StoreFile,
    password: Seq<char>,
    r: Result<Loaded, LoadError>,
)
    requires
        loads(file, password, r),
    ensures
        file is Missing ==> (r matches Ok(Loaded::Servers(list)) && list@.len() == 0),
        file matches StoreFile::Unreadable(e) ==> r == Err::<Loaded, LoadError>(LoadError::Io(e)),
        file matches StoreFile::Bytes(b) ==> {
            ||| r matches Ok(Loaded::Plaintext(p)) && age_plaintext(b@, password) == Some(p@)
            ||| r == Err::<Loaded, LoadError>(LoadError::WrongPassword) && (age_plaintext(
                b@,
                password,
            ) is None || (age_work_factor(b@) matches Some(n) && n > 14))
        },
{
}

/// Where a file lies: the user's configuration directory, or `.` where there is
/// none; a `/` unless that is empty or ends in one; then `ssh-manager`, a `/`
/// and the name.
pub proof fn law_where_files_lie(config_home: Option<Vec<u8>>, name: Seq<char>)
    ensures
        ({
            let dir = match config_home {
                Some(d) => d@,
                None => seq![0x2eu8],
            };
            let slash = if dir.len() == 0 || dir[dir.len() - 1] == 0x2f {
                Seq::<u8>::empty()
            } else {
                seq![0x2fu8]
            };
            let own = dir + slash + vstd::utf8::encode_utf8("ssh-manager"@);
            &&& app_dir(path_view(config_home)) == own
            &&& child_path(app_dir(path_view(config_home)), name) == own + seq![0x2fu8]
                + vstd::utf8::encode_utf8(name)
        }),
{
    reveal_strlit(".");
    reveal_strlit("ssh-manager");
    vstd::utf8::is_ascii_chars_encode_utf8("."@);
    vstd::utf8::is_ascii_chars_encode_utf8("ssh-manager"@);
    let dir = match config_home {
        Some(d) => d@,
        None => seq![0x2eu8],
    };
    assert("."@[0] == '.');
    assert("ssh-manager"@[10] == 'r');
    assert(vstd::utf8::encode_utf8("."@) == seq![0x2eu8]);
    assert(vstd::utf8::encode_utf8("ssh-manager"@)[10] == 0x72);
    let slash = if dir.len() == 0 || dir[dir.len() - 1] == 0x2f {
        Seq::<u8>::empty()
    } else {
        seq![0x2fu8]
    };
    let own = dir + slash + vstd::utf8::encode_utf8("ssh-manager"@);
    assert(app_dir(path_view(config_home)) == own);
    assert(child_path(own, name) == own + seq![0x2fu8] + vstd::utf8::encode_utf8(name));
}

/// What counts as the user's configuration directory is what the system gave.
proof fn law_config_home_is_the_systems(home: Option<Vec<u8>>)
    ensures
        is_config_home(home) <==> call_ensures(user_config_dir, (), home),
{
}

} // verus!
