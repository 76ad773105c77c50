use structparse::{Array, Field, Struct, Ty};

#[test]
fn parse_struct_empty() {
    assert_eq!(
        Struct::parse("struct Empty { }").unwrap(),
        Struct {
            fields: vec![],
            name: b"Empty".to_vec()
        }
    );
}

#[test]
fn parse_struct_empty_multiline() {
    assert_eq!(
        Struct::parse(
            "struct Foo {
        }"
        )
        .unwrap(),
        Struct {
            fields: vec![],
            name: b"Foo".to_vec()
        }
    );
}

#[test]
fn parse_struct_with_single_field() {
    assert_eq!(
        Struct::parse("struct Single { field: u32 }").unwrap(),
        Struct {
            fields: vec![Field {
                name: b"field".to_vec(),
                ty: Ty::Ident(b"u32".to_vec())
            }],
            name: b"Single".to_vec()
        }
    );
}

#[test]
fn parse_struct_with_single_array_field() {
    assert_eq!(
        Struct::parse("struct HasArray { field: [u32; 10] }").unwrap(),
        Struct {
            fields: vec![Field {
                name: b"field".to_vec(),
                ty: Ty::Array(Array {
                    ty: Box::new(Ty::Ident(b"u32".to_vec())),
                    len: 10
                }),
            }],
            name: b"HasArray".to_vec()
        }
    );
}

#[test]
fn field_with_trailing_comma() {
    let input = "struct Foo {
    field: [u8; 10],
    }";
    assert_eq!(
        Struct::parse(input).unwrap(),
        Struct {
            name: b"Foo".to_vec(),
            fields: vec![Field {
                name: b"field".to_vec(),
                ty: Ty::Array(Array {
                    ty: Box::new(Ty::Ident(b"u8".to_vec())),
                    len: 10
                })
            }]
        }
    );
}

#[test]
fn parse_struct_with_multi_array_field_singleline() {
    assert_eq!(
        Struct::parse("struct IHaveArrayFields { field: [u32; 10], field2: [u64; 32] }").unwrap(),
        Struct {
            fields: vec![
                Field {
                    name: b"field".to_vec(),
                    ty: Ty::Array(Array {
                        ty: Box::new(Ty::Ident(b"u32".to_vec())),
                        len: 10
                    }),
                },
                Field {
                    name: b"field2".to_vec(),
                    ty: Ty::Array(Array {
                        ty: Box::new(Ty::Ident(b"u64".to_vec())),
                        len: 32
                    }),
                }
            ],
            name: b"IHaveArrayFields".to_vec()
        }
    );
}

#[test]
fn parse_struct_with_multi_array_field_multiline() {
    assert_eq!(
        Struct::parse(
            "
        struct IHaveArrayFields {
            field: [u32; 10],
            field2: [u64; 32]
        }"
        )
        .unwrap(),
        Struct {
            fields: vec![
                Field {
                    name: b"field".to_vec(),
                    ty: Ty::Array(Array {
                        ty: Box::new(Ty::Ident(b"u32".to_vec())),
                        len: 10
                    }),
                },
                Field {
                    name: b"field2".to_vec(),
                    ty: Ty::Array(Array {
                        ty: Box::new(Ty::Ident(b"u64".to_vec())),
                        len: 32
                    }),
                }
            ],
            name: b"IHaveArrayFields".to_vec()
        }
    );
}

#[test]
fn parse_struct_with_multi_fields_singleline() {
    assert_eq!(
        Struct::parse("struct MultiSl { field: u32 , field2: u32 }").unwrap(),
        Struct {
            fields: vec![
                Field {
                    name: b"field".to_vec(),
                    ty: Ty::Ident(b"u32".to_vec())
                },
                Field {
                    name: b"field2".to_vec(),
                    ty: Ty::Ident(b"u32".to_vec())
                }
            ],
            name: b"MultiSl".to_vec()
        }
    );
}

#[test]
fn parse_struct_with_multi_fields_multiline() {
    assert_eq!(
        Struct::parse(
            "struct Foo {
            field: u32,
            field2: u32
        }"
        )
        .unwrap(),
        Struct {
            fields: vec![
                Field {
                    name: b"field".to_vec(),
                    ty: Ty::Ident(b"u32".to_vec())
                },
                Field {
                    name: b"field2".to_vec(),
                    ty: Ty::Ident(b"u32".to_vec())
                }
            ],
            name: b"Foo".to_vec()
        }
    );
}
