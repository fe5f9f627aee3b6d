use libgitdit::remote::{Name, Names, RemoteExt};
use libgitdit::base::Oid;

#[test]
fn name_as_str() {
    assert_eq!(b"foo".as_slice().as_str(), Ok("foo"));
}

#[test]
fn name_ref_path() {
    assert_eq!(
        b"foo".as_slice().ref_path(),
        Ok("refs/remotes/foo".to_owned()),
    );
}

#[test]
fn name_invalid_utf8() {
    let bytes: &[u8] = &[0x66, 0xff, 0x6f];
    assert!(bytes.as_str().is_err());
    assert!(bytes.ref_path().is_err());
    assert_eq!(bytes.all_issues_refspec(), None);
}

#[test]
fn refspecs() {
    let name: &[u8] = b"origin";
    assert_eq!(
        name.all_issues_refspec(),
        Some("+refs/dit/*:refs/remotes/origin/dit/*".to_owned())
    );
    let mut id = Oid::zero();
    id.advance(7);
    assert_eq!(
        name.issue_refspec(&id),
        Some(
            "+refs/dit/0000000000000000000000000000000000000007/*:refs/remotes/origin/dit/0000000000000000000000000000000000000007/*"
                .to_owned()
        )
    );
}

#[test]
fn names_of_containers() {
    let bytes = vec![b"origin".to_vec(), vec![0xff, 0x00]];
    assert_eq!(bytes.names(), vec![&b"origin"[..], &[0xff, 0x00][..]]);
    let strings = vec!["origin".to_string(), "f\u{f6}rk".to_string()];
    let names = strings.names();
    assert_eq!(names.len(), 2);
    assert_eq!(names[0], b"origin");
    assert_eq!(names[1].ref_path(), Ok("refs/remotes/f\u{f6}rk".to_owned()));
}
