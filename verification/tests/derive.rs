use cgc::derive::{field_body, impl_text, kept_attrs, Binding};
use cgc::scan::finds_wide_byte;
use cgc::{derive_cgccompat, DeriveError};

fn strings(texts: &[&str]) -> Vec<String> {
    texts.iter().map(|text| text.to_string()).collect()
}

/// A method of an implementation, with the branches of its `match`.
fn method(name: &str, arms: &str) -> String {
    format!(
        "# [ inline ] unsafe fn {name} ( & self ) {{ # [ allow ( dead_code ) ] # [ inline ] \
         unsafe fn mark < T : :: cgc :: CgcCompat > ( it : & T ) {{ \
         :: cgc :: CgcCompat :: {name} ( it ) ; }} match * self {{ {arms} }} }}"
    )
}

fn methods(arms: &str) -> String {
    format!("{} {} {}", method("trace", arms), method("root", arms), method("unroot", arms))
}

#[test]
fn a_tuple_structure() {
    let text = derive_cgccompat("struct Thing(Option<Cgc<Thing>>);").unwrap();
    let arms = "Thing ( ref __binding_0 , ) => { { mark ( __binding_0 ) ; } ( ) }";
    assert_eq!(
        text,
        format!(
            "struct Thing ( Option < Cgc < Thing > > ) ; \
             unsafe impl :: cgc :: CgcCompat for Thing {{ {} }}",
            methods(arms)
        )
    );
}

#[test]
fn an_ignored_field_is_not_marked_and_loses_the_attribute() {
    let source = "struct A { #[unsafe_ignore_cgc] a: i32, #[other] b: i32, \
                  #[x] #[unsafe_ignore_cgc] #[y] c: i32 }";
    let text = derive_cgccompat(source).unwrap();
    let arms = "A { a : ref __binding_0 , b : ref __binding_1 , c : ref __binding_2 , } => { \
                { } { mark ( __binding_1 ) ; } { } ( ) }";
    assert_eq!(
        text,
        format!(
            "struct A {{ a : i32 , # [ other ] b : i32 , # [ x ] # [ y ] c : i32 }} \
             unsafe impl :: cgc :: CgcCompat for A {{ {} }}",
            methods(arms)
        )
    );
}

#[test]
fn an_enumeration_with_parameters() {
    let source = "pub enum E<T: Copy> where T: Send { A(T, #[unsafe_ignore_cgc] u8), B, C { c: T } }";
    let text = derive_cgccompat(source).unwrap();
    let arms = "E :: A ( ref __binding_0 , ref __binding_1 , ) => { \
                { mark ( __binding_0 ) ; } { } ( ) } \
                E :: B => { ( ) } \
                E :: C { c : ref __binding_0 , } => { { mark ( __binding_0 ) ; } ( ) }";
    assert_eq!(
        text,
        format!(
            "pub enum E < T : Copy > where T : Send {{ A ( T , u8 ) , B , C {{ c : T }} , }} \
             unsafe impl < T : Copy > :: cgc :: CgcCompat for E < T > where T : Send {{ {} }}",
            methods(arms)
        )
    );
}

#[test]
fn a_structure_without_fields() {
    let text = derive_cgccompat("struct Unit;").unwrap();
    assert_eq!(
        text,
        format!(
            "struct Unit ; unsafe impl :: cgc :: CgcCompat for Unit {{ {} }}",
            methods("Unit => { ( ) }")
        )
    );
}

#[test]
fn a_source_that_cannot_be_read() {
    match derive_cgccompat("fn f() {}") {
        Err(DeriveError::Parse(message)) => {
            assert_eq!(message, "failed to parse derive input: \"fn f() {}\"")
        }
        other => panic!("{:?}", other),
    }
    match derive_cgccompat("struct A; struct B;") {
        Err(DeriveError::Parse(message)) => {
            assert_eq!(message, "unparsed tokens after derive input: \"struct B;\"")
        }
        other => panic!("{:?}", other),
    }
    assert!(derive_cgccompat("").is_err());
    assert!(matches!(
        derive_cgccompat("struct S(m!(/// b'\u{e9}'"),
        Err(DeriveError::Parse(_))
    ));
}

#[test]
fn a_byte_literal_outside_of_ascii() {
    assert!(matches!(derive_cgccompat("enum E { A = b'\u{e9}' }"), Err(DeriveError::WideByte)));
    assert!(derive_cgccompat("enum E { A = b'e' }").is_ok());
    assert!(finds_wide_byte("b'\u{80}"));
    assert!(finds_wide_byte("a b'\u{e9}'"));
    assert!(!finds_wide_byte("ab'\u{e9}'"));
    assert!(!finds_wide_byte("b'\u{7f}"));
    assert!(!finds_wide_byte("b'"));
    assert!(!finds_wide_byte("'\u{e9}'"));
    assert!(!finds_wide_byte(""));
}

#[test]
fn what_is_not_code_has_no_byte_literals() {
    let text = derive_cgccompat("#[doc = \"GitHub'\u{131}n\"] struct S { a: i32 }").unwrap();
    assert_eq!(
        text,
        format!(
            "# [ doc = \"GitHub'\\u{{131}}n\" ] struct S {{ a : i32 }} \
             unsafe impl :: cgc :: CgcCompat for S {{ {} }}",
            methods("S { a : ref __binding_0 , } => { { mark ( __binding_0 ) ; } ( ) }")
        )
    );
    for item in [
        "# [ doc = r\"GitHub'\u{131}n\" ] struct S ( ) ;",
        "# [ doc = r#\"\"GitHub'\u{131}n\"\\\"# ] struct S ( ) ;",
        "/** GitHub'\u{131}n */ struct S ( ) ;",
        "# [ a ] /** b'\u{e9} */ struct S ( ) ;",
    ] {
        let text = derive_cgccompat(item).unwrap();
        assert_eq!(
            text,
            format!(
                "{item} unsafe impl :: cgc :: CgcCompat for S {{ {} }}",
                methods("S ( ) => { ( ) }")
            )
        );
    }
    for source in [
        "/// GitHub'\u{131}n\nstruct S(/** b'\u{e9} */ i32, /** b'\u{e9} */ i32);",
        "// GitHub'\u{131}n\n/* b'\u{e9}' /* b'\u{e9}' */ b'\u{e9}' */ struct S<'a>(&'a i32);",
        "enum E<'b> { /** b'\u{e9} */ A(&'b [u8; b'\\'' as usize]), B = b'\"', C = b'b' }",
        "struct S(m!(br\"b'\u{e9}\" b\"b'\" 'b' 'c /// b'\u{e9}\n));",
        "#[a(\"\\\"b'\u{e9}\", 'b', '\\'', '\"')] struct S;",
        "struct S; // b'\u{e9}'",
        // Lifetimes, also with characters outside of ASCII and with a blank after the quote.
        "struct S<'\u{e9}>(&'\u{e9} i32, #[doc = \"b'\u{e9}\"] i32);",
        "struct S<' a>(&'\u{a0}a i32, &'/* b'\u{e9}' */a i32, #[doc = \"b'\u{e9}\"] i32);",
        // A name goes on up to its last letter.
        "struct S(m!(fob'\u{e9}' _b'\u{e9}' \u{e9}b'\u{e9}' 'b'\u{e9}));",
        // So does a number.
        "struct S(m!(0xb'\u{e9}' 1u8r\"b'\u{e9}\" 1.r#\"b'\u{e9}\"# 1xb'\u{e9}' 1u128b'\u{e9}'));",
        "struct S(m!(1.e5b'\u{e9}' 1e+_5r\"b'\u{e9}\" 0b1_0i8r\"b'\u{e9}\" 1..2f64r\"b'\u{e9}\"));",
        // What documents something in a macro never divides.
        "struct S(m!(1 /** b'\u{e9} */ 2 [3 /*! b'\u{e9} */]), #[doc = \"b'\u{e9}\"] i32);",
        "struct S(m!(//!x), #[doc = \"b'\u{e9}\"] i32);",
        // What is never closed divides.
        "enum E { A = 1/*x, #[doc = \"b'\u{e9}\"] B }",
        "enum E { A = 1/** x *//b'\u{e9}'\n5, #[doc = \"b'\u{e9}\"] B }",
    ] {
        assert!(!finds_wide_byte(source), "{source}");
        assert!(derive_cgccompat(source).is_ok(), "{source}");
    }
}

#[test]
fn byte_literals_in_code_are_found() {
    for source in [
        "enum E { A = 1 /* b' */ + b'\u{e9}' }",
        "struct S(m!(\"\\\"\" b'\u{e9}'));",
        "struct S(m!(r#\"\"\"# b'\u{e9}'));",
        "struct S([u8; '\"' as usize + b'\u{e9}' as usize]);",
        // What looks like a comment divides what comes before it.
        "enum E { A = 1/** b'\u{e9}' */ }",
        "struct S([u8; x[0]/*! b'\u{e9}' */]);",
        // What is never closed is no comment and no literal.
        "enum E { A = 1/* b'\u{e9}' }",
        "enum E { A = 1/* b'\u{e9}' */ /* }",
        "struct S(m!(r\"b'\u{e9}'",
        // A literal may follow a number right away.
        "struct S(m!(1u8b'\u{e9}'));",
        "struct S(m!(1.0b'\u{e9}'));",
        "struct S(m!(1._5b'\u{e9}'));",
        "struct S(m!(1e-_5f32b'\u{e9}'));",
        "struct S(m!(0xbu8b'\u{e9}'));",
        // What looks like a call of a macro may be a type and a call.
        "enum E { A = 1 as !(2/** b'\u{e9}' */) }",
        "enum E { A = 1 as &'a !(2/** b'\u{e9}' */) }",
        "enum E { A = 1 as *const !(2/** b'\u{e9}' */) }",
        // What is next to a name is not raw.
        "struct S(m!('\u{2003} r\"\\\" \" b'\u{e9}' \"));",
        "struct S(m!(bar\"\\\" \" b'\u{e9}' \"));",
        "struct S(m!(' r\"\\\" \" b'\u{e9}' \"));",
    ] {
        assert!(finds_wide_byte(source), "{source}");
        assert!(matches!(derive_cgccompat(source), Err(DeriveError::WideByte)), "{source}");
    }
}

#[test]
fn what_is_kept_of_the_attributes() {
    assert_eq!(kept_attrs(&strings(&[])), []);
    assert_eq!(kept_attrs(&strings(&["a", "b"])), [0, 1]);
    assert_eq!(kept_attrs(&strings(&["unsafe_ignore_cgc", "a"])), [1]);
    assert_eq!(kept_attrs(&strings(&["a", "unsafe_ignore_cgc", "b", "unsafe_ignore_cgc"])), [0, 2]);
}

#[test]
fn what_is_done_with_a_field() {
    let marked = Binding { ident: "it".to_string(), attrs: strings(&["doc"]) };
    assert_eq!(field_body(&marked), "mark ( it ) ;");
    let ignored = Binding { ident: "it".to_string(), attrs: strings(&["unsafe_ignore_cgc"]) };
    assert_eq!(field_body(&ignored), "");
}

#[test]
fn an_implementation_out_of_its_parts() {
    assert_eq!(
        impl_text("item", "N", "< T >", "< T >", "where T : X", "arms"),
        format!(
            "item unsafe impl < T > :: cgc :: CgcCompat for N < T > where T : X {{ {} }}",
            methods("arms")
        )
    );
    assert_eq!(
        impl_text("", "N", "", "", "", ""),
        format!(
            "unsafe impl :: cgc :: CgcCompat for N {{ {} }}",
            methods("").replace("{  }", "{ }")
        )
    );
}
