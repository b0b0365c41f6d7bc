use fstar_deps::api::git::{GitPoint, Location};
use fstar_deps::api::Sri;
use fstar_deps::fstar::cli::{fstar_program, output_str, Error, OutputStr};
use fstar_deps::source::Source;

#[test]
fn refspec_of_each_point() {
    assert_eq!(GitPoint::Rev("abc123".to_string()).refspec(), "abc123");
    assert_eq!(GitPoint::Branch("main".to_string()).refspec(), "refs/heads/main");
    assert_eq!(GitPoint::Tag("v1.0".to_string()).refspec(), "refs/tags/v1.0");
}

#[test]
fn sri_text_of_zeros() {
    assert_eq!(Sri::new([0u8; 32]).to_text(), "sha-AAAAAAAAAAAAAAAAAAAAAAAAAAAAAAAAAAAAAAAAAAA=");
}

#[test]
fn sri_text_of_counting_bytes() {
    let mut d = [0u8; 32];
    for (i, b) in d.iter_mut().enumerate() {
        *b = i as u8;
    }
    assert_eq!(Sri::new(d).to_text(), "sha-AAECAwQFBgcICQoLDA0ODxAREhMUFRYXGBkaGxwdHh8=");
}

#[test]
fn sri_of_bytes_hashes_with_sha256() {
    let s = Sri::of_bytes(b"abc");
    assert_eq!(&s.digest_bytes()[..4], &[186u8, 120, 22, 191][..]);
    assert_eq!(s.to_text(), "sha-ungWv48Bz+pBQUDeXa4iI7ADYaOWF3qctBD/YfIAFa0=");
}

#[test]
fn output_of_a_successful_run() {
    let out = OutputStr { status: Some(0), stdout: "out".to_string(), stderr: "err".to_string() };
    match output_str(out) {
        Ok((o, e)) => {
            assert_eq!(o, "out");
            assert_eq!(e, "err");
        },
        Err(_) => panic!("expected the output"),
    }
}

#[test]
fn output_of_a_failed_run() {
    for status in [Some(1), None] {
        let out = OutputStr { status, stdout: "o".to_string(), stderr: "e".to_string() };
        match output_str(out) {
            Err(Error::Unknown(o)) => {
                assert_eq!(o.status, status);
                assert_eq!(o.stdout, "o");
                assert_eq!(o.stderr, "e");
            },
            _ => panic!("expected a failure"),
        }
    }
}

#[test]
fn fstar_executable() {
    assert_eq!(fstar_program(), "fstar.exe");
}

#[test]
fn source_keeps_its_path() {
    let s = Source::new("/tmp/Hey.fst".to_string());
    assert_eq!(s.path(), "/tmp/Hey.fst");
    assert!(s.clone() == s);
    assert!(s != Source::new("/tmp/Other.fst".to_string()));
}

#[test]
fn location_keeps_its_parts() {
    let l = Location::new("https://example.org/r.git".to_string(), Some(GitPoint::Tag("t".to_string())));
    assert_eq!(l.repository(), "https://example.org/r.git");
    assert_eq!(l.point(), &Some(GitPoint::Tag("t".to_string())));
}

#[test]
fn sources_compare_by_components() {
    let s = |p: &str| Source::new(p.to_string());
    assert!(s("a//b") == s("a/b"));
    assert!(s("a/./b/") == s("a/b"));
    assert!(s("./a") != s("a"));
    assert!(s("/a") != s("a"));
    assert!(s("a/../b") != s("b"));
}

#[test]
fn sources_order_as_their_paths() {
    let pairs = [
        ("a/b", "a//b"),
        ("./a", "a"),
        ("/z", "a"),
        ("..", "a"),
        ("a", "a/b"),
        ("a/b", "a.b"),
        ("é", "z"),
        ("a/./b/", "a/c"),
        ("a/..", "a/."),
    ];
    for (a, b) in pairs {
        let sa = Source::new(a.to_string());
        let sb = Source::new(b.to_string());
        let expected = std::path::Path::new(a).partial_cmp(std::path::Path::new(b));
        assert_eq!(sa.partial_cmp(&sb), expected, "{} against {}", a, b);
        assert_eq!(sb.partial_cmp(&sa), expected.map(|o| o.reverse()), "{} against {}", b, a);
        assert_eq!(sa < sb, std::path::Path::new(a) < std::path::Path::new(b));
    }
}
