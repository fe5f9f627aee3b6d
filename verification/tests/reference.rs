use libgitdit::base::Oid;
use libgitdit::reference::{head_ref_path, leaf_ref_path, parse_path, Kind, Reference, References};

fn oid(hex: &str) -> Oid {
    Oid::from_hex(hex).expect("Could not parse id")
}

#[test]
fn ref_parts_headref() {
    let reference = Reference::from_name("refs/dit/65b56706fdc3501749d008750c61a1f24b888f72/head");
    let parts = reference.parts().expect("Could not extract parts");
    assert_eq!(parts.prefix, "refs/dit");
    assert_eq!(parts.issue, oid("65b56706fdc3501749d008750c61a1f24b888f72"));
    assert_eq!(parts.kind, Kind::Head);
}

#[test]
fn ref_parts_leaf() {
    let reference = Reference::from_name("refs/dit/65b56706fdc3501749d008750c61a1f24b888f72/leaves/f6bd121bdc2ba5906e412da19191a2eaf2025755");
    let parts = reference.parts().expect("Could not extract parts");
    assert_eq!(parts.prefix, "refs/dit");
    assert_eq!(parts.issue, oid("65b56706fdc3501749d008750c61a1f24b888f72"));
    assert_eq!(
        parts.kind,
        Kind::Leaf(
            Oid::from_hex("f6bd121bdc2ba5906e412da19191a2eaf2025755")
                .expect("Could not parse leaf OId")
        )
    );
}

#[test]
fn ref_parts_invalid_head_1() {
    assert_eq!(
        Reference::from_name("refs/dit/65b56706fdc3501749d008750c61a1f24b888f72/head/foo").parts(),
        None,
    );
}

#[test]
fn ref_parts_invalid_head_2() {
    assert_eq!(Reference::from_name("refs/dit/foo/head").parts(), None);
}

#[test]
fn ref_parts_invalid_leaf_1() {
    assert_eq!(Reference::from_name("refs/dit/65b56706fdc3501749d008750c61a1f24b888f72/foo/f6bd121bdc2ba5906e412da19191a2eaf2025755").parts(), None);
}

#[test]
fn ref_parts_invalid_leaf_2() {
    assert_eq!(
        Reference::from_name("refs/dit/65b56706fdc3501749d008750c61a1f24b888f72/leaves/foo").parts(),
        None,
    );
}

#[test]
fn ref_parts_invalid_leaf_3() {
    assert_eq!(
        Reference::from_name("refs/dit/foo/leaves/f6bd121bdc2ba5906e412da19191a2eaf2025755").parts(),
        None,
    );
}

#[test]
fn ref_parts_remote_prefix() {
    let reference = Reference::from_name(
        "refs/remotes/origin/dit/65b56706fdc3501749d008750c61a1f24b888f72/head",
    );
    let parts = reference.parts().expect("Could not extract parts");
    assert_eq!(parts.prefix, "refs/remotes/origin/dit");
    assert_eq!(parts.kind, Kind::Head);
    assert!(reference.is_head());
    assert!(!reference.is_leaf());
}

#[test]
fn ref_parts_rejects_other_forms_of_ids() {
    // upper case digits
    assert_eq!(
        parse_path("refs/dit/65B56706FDC3501749D008750C61A1F24B888F72/head"),
        None
    );
    // too short
    assert_eq!(parse_path("refs/dit/65b56706/head"), None);
    // too long
    assert_eq!(
        parse_path("refs/dit/065b56706fdc3501749d008750c61a1f24b888f72/head"),
        None
    );
    // no slash before the id
    assert_eq!(parse_path("65b56706fdc3501749d008750c61a1f24b888f72/head"), None);
    assert_eq!(parse_path(""), None);
    assert_eq!(parse_path("/head"), None);
}

#[test]
fn ref_parts_empty_prefix() {
    let parts = parse_path("/65b56706fdc3501749d008750c61a1f24b888f72/head")
        .expect("Could not extract parts");
    assert_eq!(parts.prefix, "");
    assert_eq!(parts.kind, Kind::Head);
}

#[test]
fn ref_path_round_trip() {
    let paths = [
        "refs/dit/65b56706fdc3501749d008750c61a1f24b888f72/head",
        "refs/dit/65b56706fdc3501749d008750c61a1f24b888f72/leaves/f6bd121bdc2ba5906e412da19191a2eaf2025755",
        "refs/remotes/origin/dit/0000000000000000000000000000000000000000/head",
        "x/65b56706fdc3501749d008750c61a1f24b888f72/leaves/65b56706fdc3501749d008750c61a1f24b888f72/head",
    ];
    for path in paths {
        let parts = parse_path(path).expect("Could not extract parts");
        assert_eq!(parts.path(), path.to_string());
    }
}

#[test]
fn ref_path_format() {
    let issue = oid("65b56706fdc3501749d008750c61a1f24b888f72");
    let leaf = oid("f6bd121bdc2ba5906e412da19191a2eaf2025755");
    assert_eq!(
        head_ref_path("refs/dit", &issue),
        "refs/dit/65b56706fdc3501749d008750c61a1f24b888f72/head".to_string()
    );
    assert_eq!(
        leaf_ref_path("refs/dit", &issue, &leaf),
        "refs/dit/65b56706fdc3501749d008750c61a1f24b888f72/leaves/f6bd121bdc2ba5906e412da19191a2eaf2025755".to_string()
    );
    let parts = parse_path("refs/dit/65b56706fdc3501749d008750c61a1f24b888f72/leaves/f6bd121bdc2ba5906e412da19191a2eaf2025755").expect("Could not extract parts");
    assert_eq!(parts.issue, issue);
    assert_eq!(parts.kind, Kind::Leaf(leaf));
}

#[test]
fn oid_hex_round_trip() {
    let hex = "65b56706fdc3501749d008750c61a1f24b888f72";
    let id = oid(hex);
    assert_eq!(id.as_bytes()[0], 0x65);
    assert_eq!(id.as_bytes()[19], 0x72);
    assert_eq!(id.to_hex(), hex.to_string());
    assert_eq!(Oid::from_hex("65b56706fdc3501749d008750c61a1f24b888f7"), None);
    assert_eq!(Oid::from_hex("65b56706fdc3501749d008750c61a1f24b888f7g"), None);
    assert_eq!(Oid::from_hex("65B56706fdc3501749d008750c61a1f24b888f72"), None);
}

#[test]
fn references_heads_and_leaves() {
    let list = vec![
        Reference::from_name("refs/dit/65b56706fdc3501749d008750c61a1f24b888f72/head"),
        Reference::from_name("refs/dit/65b56706fdc3501749d008750c61a1f24b888f72/leaves/f6bd121bdc2ba5906e412da19191a2eaf2025755"),
        Reference::from_name("refs/heads/main"),
    ];
    let heads = list.clone().heads();
    assert_eq!(heads.len(), 1);
    assert_eq!(heads[0].name(), "refs/dit/65b56706fdc3501749d008750c61a1f24b888f72/head");
    let leaves = list.leaves();
    assert_eq!(leaves.len(), 1);
    assert_eq!(leaves[0].name(), "refs/dit/65b56706fdc3501749d008750c61a1f24b888f72/leaves/f6bd121bdc2ba5906e412da19191a2eaf2025755");
}
