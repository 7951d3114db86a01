use taynik::models::generator::{
    filter_set, generate, strength, GeneratorOptions, Strength, DIGITS, LOWER, SIMILAR, SYMBOLS,
    UPPER,
};

#[test]
fn labels() {
    assert_eq!(Strength::Weak.label(), "Слабый");
    assert_eq!(Strength::Medium.label(), "Средний");
    assert_eq!(Strength::Strong.label(), "Стойкий");
}

#[test]
fn default_options() {
    let o = GeneratorOptions::default();
    assert_eq!(o.length, 20);
    assert!(o.lowercase && o.uppercase && o.digits && o.symbols && o.exclude_similar);
    assert_eq!((o.min_digits, o.min_symbols), (2, 2));
}

#[test]
fn filtered_sets() {
    assert_eq!(filter_set(DIGITS, true), "23456789");
    assert_eq!(filter_set(LOWER, true), "abcdefghijkmnpqrstuvwxyz");
    assert_eq!(filter_set(UPPER, false), UPPER);
}

#[test]
fn generated_password_meets_settings() {
    let o = GeneratorOptions::default();
    for _ in 0..50 {
        let p = generate(&o).unwrap();
        assert_eq!(p.chars().count(), 20);
        assert!(p.chars().all(|c| !SIMILAR.contains(c)));
        assert!(p.chars().filter(|c| c.is_ascii_digit()).count() >= 3);
        assert!(p.chars().filter(|c| SYMBOLS.contains(*c)).count() >= 3);
        assert!(p.chars().any(|c| c.is_ascii_lowercase()));
        assert!(p.chars().any(|c| c.is_ascii_uppercase()));
    }
}

#[test]
fn only_digits() {
    let o = GeneratorOptions {
        length: 8,
        lowercase: false,
        uppercase: false,
        digits: true,
        symbols: false,
        exclude_similar: false,
        min_digits: 7,
        min_symbols: 99,
    };
    let p = generate(&o).unwrap();
    assert_eq!(p.len(), 8);
    assert!(p.chars().all(|c| c.is_ascii_digit()));
}

#[test]
fn generator_errors() {
    let mut o = GeneratorOptions::default();
    o.length = 7;
    assert_eq!(generate(&o).unwrap_err(), "Длина пароля должна быть от 8 до 64 символов");
    o.length = 65;
    assert!(generate(&o).is_err());
    let none = GeneratorOptions {
        lowercase: false,
        uppercase: false,
        digits: false,
        symbols: false,
        ..GeneratorOptions::default()
    };
    assert_eq!(generate(&none).unwrap_err(), "Не выбран ни один набор символов");
    let mut o = GeneratorOptions::default();
    o.length = 10;
    o.min_digits = 6;
    o.min_symbols = 5;
    assert_eq!(
        generate(&o).unwrap_err(),
        "Требуется минимум 11 цифр/спецсимволов, но длина пароля 10"
    );
    o.min_digits = 5;
    assert_eq!(
        generate(&o).unwrap_err(),
        "Слишком много обязательных символов для выбранной длины"
    );
    o.min_digits = 2;
    o.min_symbols = 4;
    assert!(generate(&o).is_ok());
}

#[test]
fn strength_levels() {
    assert_eq!(strength(""), Strength::Weak);
    assert_eq!(strength("abc"), Strength::Weak);
    assert_eq!(strength("aB3dE6gH9k"), Strength::Medium);
    assert_eq!(strength("Abcdefgh1!Abcdefgh1!"), Strength::Strong);
    // 10 lower-case letters: 47 bits; 11: 51.7 bits.
    assert_eq!(strength("abcdefghij"), Strength::Weak);
    assert_eq!(strength("abcdefghijk"), Strength::Medium);
    // Non-ASCII counts as "other" (30): 17 of them give 83.4 bits.
    assert_eq!(strength("ёёёёёёёёёёёёёёёёё"), Strength::Strong);
}

#[test]
fn a_longer_password_is_never_weaker() {
    let rank = |s: Strength| match s {
        Strength::Weak => 0,
        Strength::Medium => 1,
        Strength::Strong => 2,
    };
    let mut p = String::new();
    for c in "aB3$kLm9!xQz7&wE2@rT5".chars() {
        let before = rank(strength(&p));
        p.push(c);
        assert!(rank(strength(&p)) >= before);
    }
    assert_eq!(strength(&p), Strength::Strong);
}
