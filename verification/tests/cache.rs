use toast::cache::{combine, hash_bytes, initial_key, key, CryptoHash};
use toast::strmap::StringMap;
use toast::toastfile::{Task, DEFAULT_LOCATION, DEFAULT_USER};

fn task(
    environment: StringMap<Option<String>>,
    input_paths: Vec<String>,
    location: &str,
    user: &str,
    command: &str,
) -> Task {
    Task {
        description: None,
        dependencies: vec![],
        cache: true,
        environment,
        input_paths,
        output_paths: vec![],
        output_paths_on_failure: vec![],
        mount_paths: vec![],
        mount_readonly: false,
        ports: vec![],
        location: location.to_owned(),
        user: user.to_owned(),
        command: command.to_owned(),
        command_prefix: None,
    }
}

fn variables(names: &[&str]) -> StringMap<Option<String>> {
    let mut m = StringMap::new();
    for name in names {
        m.insert((*name).to_owned(), None);
    }
    m
}

fn values(pairs: &[(&str, &str)]) -> StringMap<String> {
    let mut m = StringMap::new();
    for (k, v) in pairs {
        m.insert((*k).to_owned(), (*v).to_owned());
    }
    m
}

#[test]
fn hash_str_pure() {
    assert_eq!("foo".crypto_hash(), "foo".crypto_hash());
}

#[test]
fn hash_str_not_constant() {
    assert_ne!("foo".crypto_hash(), "bar".crypto_hash());
}

#[test]
fn hash_path_pure() {
    assert_eq!("foo".to_owned().crypto_hash(), "foo".to_owned().crypto_hash());
}

#[test]
fn hash_path_not_constant() {
    assert_ne!("foo".to_owned().crypto_hash(), "bar".to_owned().crypto_hash());
}

#[test]
fn hash_str_known_value() {
    assert_eq!(
        "foo".crypto_hash(),
        "2c26b46b68ffc68ff99b453c1d30413413422d706483bfa0f98a5e886266e7ae",
    );
}

#[test]
fn combine_pure() {
    assert_eq!(combine("foo", "bar"), combine("foo", "bar"));
}

#[test]
fn combine_first_different() {
    assert_ne!(combine("foo", "bar"), combine("foo", "baz"));
}

#[test]
fn combine_second_different() {
    assert_ne!(combine("foo", "bar"), combine("baz", "bar"));
}

#[test]
fn combine_concat() {
    assert_ne!(combine("foo", "bar"), combine("foob", "ar"));
}

#[test]
fn combine_is_hash_of_hashes() {
    let both = format!("{}{}", "foo".crypto_hash(), "bar".crypto_hash());
    assert_eq!(combine("foo", "bar"), both.crypto_hash());
    assert_eq!(combine("foo", "bar").len(), 64);
}

#[test]
fn initial_key_prefix() {
    let k = initial_key("encom:os-12");
    assert_eq!(k, format!("toast-{}", "encom:os-12".crypto_hash()));
}

#[test]
fn key_noop() {
    let previous_key = "corge";
    let task = task(variables(&[]), vec![], DEFAULT_LOCATION, DEFAULT_USER, "");
    let input_files_hash = "grault";
    let full_environment = values(&[]);
    assert_eq!(
        previous_key,
        key(previous_key, &task, input_files_hash, &full_environment),
    );
}

#[test]
fn key_pure() {
    let previous_key = "corge";
    let task = task(
        variables(&["foo"]),
        vec!["flob".to_owned()],
        DEFAULT_LOCATION,
        DEFAULT_USER,
        "echo wibble",
    );
    let input_files_hash = "grault";
    let full_environment = values(&[("foo", "qux")]);
    assert_eq!(
        key(previous_key, &task, input_files_hash, &full_environment),
        key(previous_key, &task, input_files_hash, &full_environment),
    );
}

#[test]
fn key_has_prefix() {
    let task = task(variables(&[]), vec![], DEFAULT_LOCATION, DEFAULT_USER, "echo wibble");
    let k = key("corge", &task, "grault", &values(&[]));
    assert!(k.starts_with("toast-"));
    assert_eq!(k.len(), "toast-".len() + 64);
}

#[test]
fn key_previous_key() {
    let previous_key1 = "foo";
    let previous_key2 = "bar";
    let task = task(variables(&[]), vec![], DEFAULT_LOCATION, DEFAULT_USER, "echo wibble");
    let input_files_hash = "grault";
    let full_environment = values(&[]);
    assert_ne!(
        key(previous_key1, &task, input_files_hash, &full_environment),
        key(previous_key2, &task, input_files_hash, &full_environment),
    );
}

#[test]
fn key_environment_order() {
    let previous_key = "corge";
    let mut environment1 = StringMap::new();
    environment1.insert("foo".to_owned(), None);
    environment1.insert("bar".to_owned(), None);
    let mut environment2 = StringMap::new();
    environment2.insert("bar".to_owned(), None);
    environment2.insert("foo".to_owned(), None);
    let task1 = task(environment1, vec![], DEFAULT_LOCATION, DEFAULT_USER, "echo wibble");
    let task2 = task(environment2, vec![], DEFAULT_LOCATION, DEFAULT_USER, "echo wibble");
    let input_files_hash = "grault";
    let full_environment = values(&[("foo", "qux"), ("bar", "fum")]);
    assert_eq!(
        key(previous_key, &task1, input_files_hash, &full_environment),
        key(previous_key, &task2, input_files_hash, &full_environment),
    );
}

#[test]
fn key_environment_keys() {
    let previous_key = "corge";
    let task1 = task(variables(&["foo"]), vec![], DEFAULT_LOCATION, DEFAULT_USER, "echo wibble");
    let task2 = task(variables(&["bar"]), vec![], DEFAULT_LOCATION, DEFAULT_USER, "echo wibble");
    let input_files_hash = "grault";
    let full_environment = values(&[("foo", "qux"), ("bar", "fum")]);
    assert_ne!(
        key(previous_key, &task1, input_files_hash, &full_environment),
        key(previous_key, &task2, input_files_hash, &full_environment),
    );
}

#[test]
fn key_environment_values() {
    let previous_key = "corge";
    let task = task(variables(&["foo"]), vec![], DEFAULT_LOCATION, DEFAULT_USER, "echo wibble");
    let input_files_hash = "grault";
    let full_environment1 = values(&[("foo", "bar")]);
    let full_environment2 = values(&[("foo", "baz")]);
    assert_ne!(
        key(previous_key, &task, input_files_hash, &full_environment1),
        key(previous_key, &task, input_files_hash, &full_environment2),
    );
}

#[test]
fn key_input_files_hash() {
    let previous_key = "corge";
    let task = task(
        variables(&[]),
        vec!["flob".to_owned()],
        DEFAULT_LOCATION,
        DEFAULT_USER,
        "echo wibble",
    );
    let input_files_hash1 = "foo";
    let input_files_hash2 = "bar";
    let full_environment = values(&[]);
    assert_ne!(
        key(previous_key, &task, input_files_hash1, &full_environment),
        key(previous_key, &task, input_files_hash2, &full_environment),
    );
}

#[test]
fn key_location() {
    let previous_key = "corge";
    let task1 = task(variables(&[]), vec![], "/foo", DEFAULT_USER, "echo wibble");
    let task2 = task(variables(&[]), vec![], "/bar", DEFAULT_USER, "echo wibble");
    let input_files_hash = "grault";
    let full_environment = values(&[]);
    assert_ne!(
        key(previous_key, &task1, input_files_hash, &full_environment),
        key(previous_key, &task2, input_files_hash, &full_environment),
    );
}

#[test]
fn key_user() {
    let previous_key = "corge";
    let task1 = task(variables(&[]), vec![], DEFAULT_LOCATION, "foo", "echo wibble");
    let task2 = task(variables(&[]), vec![], DEFAULT_LOCATION, "bar", "echo wibble");
    let input_files_hash = "grault";
    let full_environment = values(&[]);
    assert_ne!(
        key(previous_key, &task1, input_files_hash, &full_environment),
        key(previous_key, &task2, input_files_hash, &full_environment),
    );
}

#[test]
fn key_command() {
    let previous_key = "corge";
    let task1 = task(variables(&[]), vec![], DEFAULT_LOCATION, DEFAULT_USER, "echo foo");
    let task2 = task(variables(&[]), vec![], DEFAULT_LOCATION, DEFAULT_USER, "echo bar");
    let input_files_hash = "grault";
    let full_environment = values(&[]);
    assert_ne!(
        key(previous_key, &task1, input_files_hash, &full_environment),
        key(previous_key, &task2, input_files_hash, &full_environment),
    );
}

#[test]
fn hash_read_pure() {
    let str1 = b"foo" as &[u8];
    let str2 = b"foo" as &[u8];
    assert_eq!(hash_bytes(str1), hash_bytes(str2));
}

#[test]
fn hash_read_not_constant() {
    let str1 = b"foo" as &[u8];
    let str2 = b"bar" as &[u8];
    assert_ne!(hash_bytes(str1), hash_bytes(str2));
}

#[test]
fn hash_bytes_known_value() {
    assert_eq!(hash_bytes(b"foo"), "foo".crypto_hash());
    assert_eq!(
        hash_bytes(b""),
        "e3b0c44298fc1c149afbf4c8996fb92427ae41e4649b934ca495991b7852b855"
    );
}
