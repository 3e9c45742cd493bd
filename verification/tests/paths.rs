use std::cmp::Ordering;

use acorn_dfs::new_map::util::FixedLenString;
use acorn_dfs::new_map::Path;
use winnow::combinator::{opt, preceded, separated, terminated};
use winnow::error::ContextError;
use winnow::token::take_while;
use winnow::Parser;

fn path(text: &str) -> Path {
    Path::try_from_str(text).unwrap()
}

#[test]
fn parse_paths() {
    assert_eq!(Path::from_bytes(b"$"), Some(Path(vec![])));
    assert_eq!(Path::from_bytes(b"$."), Some(Path(vec![])));
    assert_eq!(
        Path::from_bytes(b"$.Utilities.!TeleRoute.Templates"),
        Some(Path(vec![
            FixedLenString::from_bytes_dynamic(b"Utilities"),
            FixedLenString::from_bytes_dynamic(b"!TeleRoute"),
            FixedLenString::from_bytes_dynamic(b"Templates"),
        ]))
    );
    assert_eq!(Path::from_bytes(b"$.AAAAAAAAAAAAAAAAAA"), None);
    assert_eq!(
        Path::from_bytes(b"$.AAAA.BBB."),
        Some(Path(vec![
            FixedLenString::from_bytes_dynamic(b"AAAA"),
            FixedLenString::from_bytes_dynamic(b"BBB")
        ]))
    );
    assert_eq!(
        Path::from_bytes(b"$.Utilities.!TeleRoute.Templates")
            .unwrap()
            .to_string(),
        "$.Utilities.!TeleRoute.Templates"
    );
    assert_eq!(Path::from_bytes(b"$.Foo\0o.Bar"), None);
}

#[test]
fn path_as_bytes() {
    let p = Path::from_bytes(b"$.Utilities.!TeleRoute.Templates").unwrap();
    assert_eq!(
        p.to_byte_segments(),
        vec![b"Utilities" as &[u8], b"!TeleRoute", b"Templates"]
    );
}

#[test]
fn prefixes() {
    let cases = [
        ("$", "$.A", true),
        ("$.A", "$.A", true),
        ("$.A", "$.AB", true),
        ("$.A", "$.A.B", true),
        ("$.B", "$.A", false),
        ("$.B.A", "$.A.B", false),
    ];

    for (prefix, haystack, expected) in cases {
        let needle = Path::from_bytes(prefix.as_bytes()).unwrap();
        let path = Path::from_bytes(haystack.as_bytes()).unwrap();
        let test = needle.is_prefix(&path);
        let test = test == expected;
        assert!(test, "'{prefix}' is not a prefix of '{haystack}'");
    }
}

#[test]
fn prefixes_of_shorter_paths() {
    // Only the names that both paths have are compared.
    assert!(path("$.A.B").is_prefix(&path("$.A")));
    assert!(path("$.A.B").is_prefix(&path("$")));
    assert!(path("$.A.B").is_prefix(&path("$.AX")));
    assert!(!path("$.AX.B").is_prefix(&path("$.A.B")));
}

#[test]
fn paths_that_are_none() {
    for text in ["", "A", "$A", "$..", "$.A..B", "$.A:B", "$.A\"", "$.A.B.."] {
        assert_eq!(Path::from_bytes(text.as_bytes()), None, "{text}");
    }
    assert_eq!(Path::from_bytes(&[b'$', b'.', b'A', 0x85]), None);
    assert_eq!(Path::from_bytes(&[b'$', b'.', b'A', 0x9F, b'B']), None);
    assert_eq!(
        Path::try_from_str("nowhere").unwrap_err(),
        "Could not convert 'nowhere' to ADFS path"
    );
}

/// The grammar of paths, in another notation.
fn grammar(text: &[u8]) -> Option<Vec<Vec<u8>>> {
    let segment = take_while::<_, &[u8], ContextError>(1..=10, |c: u8| {
        !(c as char).is_control() && !b"$%&*#@\"|^.:".contains(&c)
    })
    .map(|s: &[u8]| s.to_vec());
    let segments = preceded(b'.', separated(1.., segment, b'.'));
    let mut path = preceded(b'$', terminated(opt(segments), opt(b'.')));
    let parsed: Result<Option<Vec<Vec<u8>>>, _> = path.parse(text);
    parsed.ok().map(|segments| segments.unwrap_or_default())
}

#[test]
fn paths_follow_their_grammar() {
    let alphabet = [b'$', b'.', b'a', 0u8, b':', 0x85];
    let mut texts: Vec<Vec<u8>> = vec![vec![]];
    for _ in 0..6 {
        let mut longer = vec![];
        for text in &texts {
            for c in alphabet {
                let mut next = text.clone();
                next.push(c);
                longer.push(next);
            }
        }
        for text in &longer {
            let got = Path::from_bytes(text).map(|p| p.to_byte_segments());
            assert_eq!(got, grammar(text), "{text:?}");
        }
        texts = longer;
    }
    for text in ["$.abcdefghij", "$.abcdefghijk", "$.abcdefghij.k", "$.abcdefghij."] {
        let got = Path::from_bytes(text.as_bytes()).map(|p| p.to_byte_segments());
        assert_eq!(got, grammar(text.as_bytes()), "{text}");
    }
}

#[test]
fn plain_paths_are_shown_as_they_were_typed() {
    for text in ["$", "$.A", "$.!Boot", "$.Some Dir.x/y", "$.0123456789.~"] {
        assert_eq!(path(text).to_string(), text);
        assert_eq!(path(&format!("{text}.")).to_string(), text);
    }
    assert_eq!(path("$.it's").to_string(), "$.it\\'s");
}

#[test]
fn paths_are_built() {
    let root = Path::root_path();
    assert!(root.is_empty());
    assert_eq!(root, Path::default());
    let a = FixedLenString::from_bytes_dynamic(b"A");
    let b = FixedLenString::from_bytes_dynamic(b"B");
    let ab = root.append(a).append(b);
    assert_eq!(ab, path("$.A.B"));
    assert_eq!(ab.len(), 2);
    assert_eq!(path("$.B").prepend(a), ab);
    assert_eq!(ab.stem(1), path("$.A"));
    assert_eq!(Path::from_segments(ab.segments()), ab);
    let mut all = path("$.A");
    all.extend(&[path("$.B.C"), path("$"), path("$.D")]);
    assert_eq!(all, path("$.A.B.C.D"));
    assert_eq!(all.clone(), all);
    // The bytes behind a terminator come along.
    let odd = FixedLenString(*b"E\0rest\0\0\0\0");
    all.extend(&[Path(vec![odd])]);
    assert_eq!(all.segments()[4].0, odd.0);
}

#[test]
fn paths_in_order() {
    let sorted = ["$", "$.A", "$.A.B", "$.A.C", "$.AB", "$.B", "$.a"];
    for (i, a) in sorted.iter().enumerate() {
        for (j, b) in sorted.iter().enumerate() {
            assert_eq!(path(a).cmp(&path(b)), i.cmp(&j), "{a} {b}");
            assert_eq!(path(a) < path(b), i < j);
            assert_eq!(path(a) == path(b), i == j);
        }
    }
    assert_eq!(
        path("$.A").partial_cmp(&path("$.B")),
        Some(Ordering::Less)
    );
}
