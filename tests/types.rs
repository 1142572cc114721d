use unscrambler::types::{BlockAddr, FnAddr, ModAddr, StructAddr};

fn test_addr_empty() -> ModAddr {
    ModAddr::new([0; 16], "Foo".to_owned())
}

fn test_addr_42() -> ModAddr {
    let mut arr = [0; 16];
    arr[1] = 66;
    ModAddr::new(arr, "Foo".to_owned())
}

#[test]
fn mod_addr_fmt_hex() {
    let addr = test_addr_42().to_hex_string();
    assert_eq!("0042000000000000", &addr[..16]);
    assert_eq!("::Foo", &addr[(addr.len() - 5)..]);

    let addr = test_addr_empty().to_hex_string();
    assert_eq!("0000000000000000", &addr[..16]);
    assert_eq!("::Foo", &addr[(addr.len() - 5)..]);
}

#[test]
fn fn_addr_fn_addr_fmt_hex() {
    let addr = FnAddr::new(test_addr_42(), "foo".to_owned()).to_hex_string();
    assert_eq!("0042000000000000", &addr[..16]);
    assert_eq!("::Foo::foo", &addr[(addr.len() - 10)..]);
}

#[test]
fn struct_addr_fn_addr_fmt_hex() {
    let addr = StructAddr::new(test_addr_42(), "FOO".to_owned()).to_hex_string();
    assert_eq!("0042000000000000", &addr[..16]);
    assert_eq!("::Foo::FOO", &addr[(addr.len() - 10)..]);
}

#[test]
fn block_addr_fmt_hex() {
    let function = FnAddr::new(test_addr_42(), "foo".to_owned());
    let addr = BlockAddr::new(function, 42).to_hex_string();
    assert_eq!("0042000000000000", &addr[..16]);
    assert_eq!("::Foo::foo:#42", &addr[(addr.len() - 14)..]);
}

#[test]
fn address_parts() {
    let m = test_addr_42();
    assert_eq!(m.name(), "Foo");
    assert_eq!(m.addr()[1], 66);
    assert_eq!(
        m.to_hex_string(),
        "00420000000000000000000000000000::Foo"
    );
    let f = FnAddr::new(m, "bar".to_owned());
    assert_eq!(f.name(), "bar");
    let b = BlockAddr::new(f, 0);
    assert_eq!(b.id(), 0);
    assert!(b.to_hex_string().ends_with("::Foo::bar:#0"));
    let b = BlockAddr::new(FnAddr::new(test_addr_empty(), "x".to_owned()), 65535);
    assert!(b.to_hex_string().ends_with(":#65535"));
    let (module, name) = FnAddr::new(test_addr_empty(), "y".to_owned()).split();
    assert_eq!(name, "y");
    assert_eq!(module.split().1, "Foo");
}
