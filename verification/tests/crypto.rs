use taynik::db::crypto::{
    decrypt, decrypt_str, derive_key, encrypt, encrypt_str, generate_salt, ArgonParams, CryptoKey,
    KEY_LEN, NONCE_LEN, SALT_LEN,
};

fn light_params() -> ArgonParams {
    ArgonParams { memory_kib: 8, iterations: 1, parallelism: 1 }
}

#[test]
fn default_params() {
    let p = ArgonParams::default();
    assert_eq!((p.memory_kib, p.iterations, p.parallelism), (65536, 3, 4));
}

#[test]
fn salt_is_fresh() {
    let a = generate_salt();
    let b = generate_salt();
    assert_eq!(a.len(), SALT_LEN);
    assert_ne!(a, b);
}

#[test]
fn derive_key_is_deterministic() {
    let salt = [7u8; SALT_LEN];
    let k1 = derive_key("мастер", &salt, &light_params()).unwrap();
    let k2 = derive_key("мастер", &salt, &light_params()).unwrap();
    let k3 = derive_key("other", &salt, &light_params()).unwrap();
    assert_eq!(k1.as_slice(), k2.as_slice());
    assert_ne!(k1.as_slice(), k3.as_slice());
    assert_eq!(k1.as_slice().len(), KEY_LEN);
}

#[test]
fn derive_key_errors() {
    let salt = [7u8; SALT_LEN];
    let bad = ArgonParams { memory_kib: 8, iterations: 0, parallelism: 1 };
    let e = derive_key("x", &salt, &bad).err().unwrap();
    assert_eq!(e, "Некорректные параметры Argon2: time cost is too small");
    let few = ArgonParams { memory_kib: 15, iterations: 1, parallelism: 2 };
    let e = derive_key("x", &salt, &few).err().unwrap();
    assert_eq!(e, "Некорректные параметры Argon2: memory cost is too small");
    let none = ArgonParams { memory_kib: 8, iterations: 1, parallelism: 0 };
    let e = derive_key("x", &salt, &none).err().unwrap();
    assert_eq!(e, "Некорректные параметры Argon2: not enough threads");
    let e = derive_key("x", &[1, 2, 3], &light_params()).err().unwrap();
    assert_eq!(e, "Ошибка вывода ключа: salt is too short");
}

#[test]
fn encrypt_then_decrypt() {
    let key = CryptoKey([3u8; KEY_LEN]);
    let blob = encrypt(&key, b"secret").unwrap();
    assert_eq!(blob.len(), NONCE_LEN + 6 + 16);
    assert_ne!(&blob[NONCE_LEN..NONCE_LEN + 6], b"secret");
    assert_eq!(decrypt(&key, &blob).unwrap(), b"secret");
    let other = encrypt(&key, b"secret").unwrap();
    assert_ne!(blob, other);
}

#[test]
fn decrypt_errors() {
    let key = CryptoKey([3u8; KEY_LEN]);
    let wrong = CryptoKey([4u8; KEY_LEN]);
    let blob = encrypt(&key, b"secret").unwrap();
    assert_eq!(
        decrypt(&wrong, &blob).unwrap_err(),
        "Неверный мастер-пароль или повреждённые данные"
    );
    assert_eq!(
        decrypt(&key, &blob[..27]).unwrap_err(),
        "Повреждённые данные (слишком короткий blob)"
    );
    let mut tampered = blob.clone();
    tampered[NONCE_LEN] ^= 1;
    assert!(decrypt(&key, &tampered).is_err());
}

#[test]
fn strings_roundtrip() {
    let key = CryptoKey([9u8; KEY_LEN]);
    let blob = encrypt_str(&key, "пароль ✓").unwrap();
    assert_eq!(decrypt_str(&key, &blob).unwrap(), "пароль ✓");
    let raw = encrypt(&key, &[0xff, 0xfe]).unwrap();
    assert_eq!(decrypt_str(&key, &raw).unwrap_err(), "Некорректная кодировка данных");
}
