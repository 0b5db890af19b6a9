use simple_ssh_manager::servers::Server;
use simple_ssh_manager::store::{
    config_dir_in, config_home, decoded, decrypt, encrypt, encrypted, load, lockout_path,
    lockout_path_in, store_path, store_path_in, unsealed, DecryptFailure, EncryptFailure,
    LoadError, Loaded, StoreFile, SURE_WORK_FACTOR,
};

fn to_json(servers: &[Server]) -> Vec<u8> {
    let mut list = Vec::new();
    for s in servers {
        let mut fields = serde_json::Map::new();
        for (key, value) in [
            ("name", &s.name),
            ("host", &s.host),
            ("user", &s.user),
            ("group", &s.group),
            ("password", &s.password),
            ("keyfile", &s.keyfile),
        ] {
            fields.insert(key.to_string(), serde_json::Value::String(value.clone()));
        }
        list.push(serde_json::Value::Object(fields));
    }
    serde_json::to_vec(&serde_json::Value::Array(list)).unwrap()
}

fn from_json(bytes: &[u8]) -> Vec<Server> {
    let value: serde_json::Value = serde_json::from_slice(bytes).unwrap();
    let field = |v: &serde_json::Value, key: &str| v[key].as_str().unwrap().to_string();
    value
        .as_array()
        .unwrap()
        .iter()
        .map(|v| Server {
            name: field(v, "name"),
            host: field(v, "host"),
            user: field(v, "user"),
            group: field(v, "group"),
            password: field(v, "password"),
            keyfile: field(v, "keyfile"),
        })
        .collect()
}

#[test]
fn roundtrip_encrypt_decrypt() {
    let pw = "hunter2";
    let servers = vec![Server {
        name: "box".into(),
        host: "1.2.3.4".into(),
        user: "root".into(),
        group: "prod".into(),
        password: "secret".into(),
        keyfile: "/home/me/.ssh/id_ed25519".into(),
    }];
    let enc = encrypt(&to_json(&servers), pw).unwrap();
    let dec: Vec<Server> = from_json(&decrypt(&enc, pw).unwrap());
    assert_eq!(servers, dec);
}

#[test]
fn wrong_password_fails() {
    let pw = "right";
    let enc = encrypt(b"[]", pw).unwrap();
    assert!(decrypt(&enc, "wrong").is_err());
}

#[test]
fn nuls_at_the_end_of_a_passphrase_do_not_count() {
    let enc = encrypt(b"[]", "pw").unwrap();
    assert_eq!(decrypt(&enc, "pw\0").unwrap(), b"[]");
    assert!(decrypt(&enc, "\0pw").is_err());
}

#[test]
fn ciphertext_is_an_age_file_and_not_the_plaintext() {
    let plain = b"[]".to_vec();
    let enc = encrypt(&plain, "pw").unwrap();
    assert_ne!(enc, plain);
    assert!(enc.starts_with(b"age-encryption.org/v1\n-> scrypt "));
    assert_eq!(decrypt(&enc, "pw").unwrap(), plain);
}

#[test]
fn encrypting_twice_gives_two_files_with_one_content() {
    let a = encrypt(b"same", "pw").unwrap();
    let b = encrypt(b"same", "pw").unwrap();
    assert_ne!(a, b);
    assert_eq!(decrypt(&a, "pw").unwrap(), decrypt(&b, "pw").unwrap());
}

#[test]
fn failed_encryption_is_reported() {
    let r = encrypted(Err(age::EncryptError::MissingRecipients));
    assert!(matches!(r, Err(EncryptFailure::Age(age::EncryptError::MissingRecipients))));
    assert_eq!(encrypted(Ok(vec![7])).unwrap(), vec![7]);
}

#[test]
fn empty_plaintext_roundtrips() {
    let enc = encrypt(b"", "pw").unwrap();
    assert_eq!(decrypt(&enc, "pw").unwrap(), Vec::<u8>::new());
}

#[test]
fn not_an_age_file_is_unreadable() {
    assert_eq!(decrypt(b"", "pw"), Err(DecryptFailure::Unreadable));
    assert_eq!(decrypt(b"[]", "pw"), Err(DecryptFailure::Unreadable));
}

#[test]
fn truncated_file_is_unreadable() {
    let mut enc = encrypt(b"hello", "pw").unwrap();
    enc.pop();
    assert_eq!(decrypt(&enc, "pw"), Err(DecryptFailure::Unreadable));
}

#[test]
fn too_high_a_work_factor_is_declined() {
    let mut file = String::from("age-encryption.org/v1\n-> scrypt ");
    file.push_str(&"A".repeat(22));
    file.push_str(" 63\n");
    file.push_str(&"A".repeat(43));
    file.push_str("\n--- ");
    file.push_str(&"A".repeat(43));
    file.push('\n');
    let mut bytes = file.into_bytes();
    bytes.extend_from_slice(&[0u8; 48]);
    assert_eq!(decrypt(&bytes, "pw"), Err(DecryptFailure::ExcessiveWork { required: 63 }));
    assert!(matches!(load(StoreFile::Bytes(bytes), "pw"), Err(LoadError::WrongPassword)));
}

#[test]
fn the_sure_work_factor_is_never_declined() {
    assert_eq!(SURE_WORK_FACTOR, 14);
    let mut recipient = age::scrypt::Recipient::new("pw".to_string().into());
    recipient.set_work_factor(SURE_WORK_FACTOR);
    let enc = age::encrypt(&recipient, b"content").unwrap();
    assert!(enc.starts_with(b"age-encryption.org/v1\n-> scrypt "));
    assert_eq!(decrypt(&enc, "pw").unwrap(), b"content");
    assert!(matches!(load(StoreFile::Bytes(enc), "pw"), Ok(Loaded::Plaintext(_))));
}

#[test]
fn missing_store_is_an_empty_list() {
    match load(StoreFile::Missing, "pw") {
        Ok(Loaded::Servers(list)) => assert!(list.is_empty()),
        other => panic!("unexpected {other:?}"),
    }
}

#[test]
fn unreadable_store_is_an_io_error() {
    let e = std::io::Error::new(std::io::ErrorKind::PermissionDenied, "denied");
    match load(StoreFile::Unreadable(e), "pw") {
        Err(LoadError::Io(e)) => {
            assert_eq!(e.kind(), std::io::ErrorKind::PermissionDenied);
            assert_eq!(e.to_string(), "denied");
        }
        other => panic!("unexpected {other:?}"),
    }
}

#[test]
fn saved_store_loads_with_its_password_only() {
    let enc = encrypt(b"[1,2]", "old").unwrap();
    match load(StoreFile::Bytes(enc.clone()), "old") {
        Ok(Loaded::Plaintext(p)) => assert_eq!(p, b"[1,2]"),
        other => panic!("unexpected {other:?}"),
    }
    assert!(matches!(load(StoreFile::Bytes(enc), "new"), Err(LoadError::WrongPassword)));
}

#[test]
fn changed_password_opens_the_same_content() {
    let enc = encrypt(b"content", "old").unwrap();
    let plain = decrypt(&enc, "old").unwrap();
    let again = encrypt(&plain, "new").unwrap();
    assert_eq!(decrypt(&again, "new").unwrap(), b"content");
}

#[test]
fn every_decrypt_failure_is_a_wrong_password() {
    assert!(matches!(unsealed(Err(DecryptFailure::Unreadable)), Err(LoadError::WrongPassword)));
    let declined = DecryptFailure::ExcessiveWork { required: 30 };
    assert!(matches!(unsealed(Err(declined)), Err(LoadError::WrongPassword)));
    match unsealed(Ok(vec![1, 2])) {
        Ok(Loaded::Plaintext(p)) => assert_eq!(p, vec![1, 2]),
        other => panic!("unexpected {other:?}"),
    }
}

#[test]
fn unparsed_plaintext_is_corrupt() {
    assert!(matches!(decoded(None), Err(LoadError::Corrupt)));
    let s = Server { name: "n".into(), ..Server::default() };
    assert_eq!(decoded(Some(vec![s.clone()])).unwrap(), vec![s]);
}

#[test]
fn paths_below_the_config_directory() {
    let home = || Some(b"/home/me/.config".to_vec());
    assert_eq!(config_dir_in(home()), b"/home/me/.config/ssh-manager");
    assert_eq!(store_path_in(home()), b"/home/me/.config/ssh-manager/servers.age");
    assert_eq!(lockout_path_in(home()), b"/home/me/.config/ssh-manager/lockout.json");
}

#[test]
fn paths_without_a_config_directory() {
    assert_eq!(store_path_in(None), b"./ssh-manager/servers.age");
    assert_eq!(lockout_path_in(None), b"./ssh-manager/lockout.json");
}

#[test]
fn paths_join_as_the_standard_library_does() {
    for dir in ["/", "/a", "/a/", "", "a/b", "/a//"] {
        let expected = std::path::PathBuf::from(dir).join("ssh-manager").join("servers.age");
        assert_eq!(
            store_path_in(Some(dir.as_bytes().to_vec())),
            expected.into_os_string().into_encoded_bytes()
        );
    }
}

#[test]
fn paths_start_at_the_users_config_directory() {
    let home = dirs::config_dir();
    assert_eq!(
        config_home(),
        home.clone().map(|dir| dir.into_os_string().into_encoded_bytes())
    );
    assert_eq!(store_path(), store_path_in(config_home()));
    assert_eq!(lockout_path(), lockout_path_in(config_home()));
    let expected = home
        .unwrap_or_else(|| std::path::PathBuf::from("."))
        .join("ssh-manager");
    assert_eq!(
        store_path(),
        expected.join("servers.age").into_os_string().into_encoded_bytes()
    );
    assert_eq!(
        lockout_path(),
        expected.join("lockout.json").into_os_string().into_encoded_bytes()
    );
    assert_ne!(store_path(), lockout_path());
}
