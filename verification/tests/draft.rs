use gpu_gates::draft::Lookup;

/// A u32 LCG over a small vocabulary with a five-token phrase spliced in, so
/// suffixes of three, two and one token all match.
fn stream(n: usize) -> Vec<u32> {
    let mut s: u32 = 1;
    let mut out: Vec<u32> = Vec::with_capacity(n + 5);
    while out.len() < n {
        s = s.wrapping_mul(1_664_525).wrapping_add(1_013_904_223);
        let x = s >> 16;
        if x % 7 == 0 {
            out.extend_from_slice(&[40, 41, 42, 43, 44]);
        } else {
            out.push(x % 11);
        }
    }
    out.truncate(n);
    out
}

/// Over 4000 tokens as one document: 3999 positions, 3983 proposed, 1644
/// accepted.
#[test]
fn matches_draft_accept_py() {
    let t = stream(4000);
    let mut look = Lookup::new();
    look.push(t[0]);
    let (mut positions, mut proposed, mut accepted) = (0, 0, 0);
    for &tok in &t[1..] {
        positions += 1;
        if let Some(d) = look.propose() {
            proposed += 1;
            if d == tok {
                accepted += 1;
            }
        }
        look.push(tok);
    }
    assert_eq!((positions, proposed, accepted), (3999, 3983, 1644));
}

/// Seven distinct ids repeated; position 7 has no proposal, every later one is
/// right.
#[test]
fn repeated_pattern() {
    let pat = [11, 12, 13, 14, 15, 16, 17];
    let mut look = Lookup::new();
    let mut hits = Vec::new();
    for (i, &tok) in pat.iter().cycle().take(70).enumerate() {
        if i > 0 {
            hits.push(look.propose().map(|d| d == tok));
        }
        look.push(tok);
    }
    assert!(hits[..7].iter().all(Option::is_none));
    assert!(hits[7..].iter().all(|h| *h == Some(true)));
}

/// The longest suffix decides, and of several earlier places the latest.
#[test]
fn the_longest_and_latest_suffix_proposes() {
    let mut look = Lookup::new();
    assert_eq!(look.propose(), None);
    for t in [1, 2, 3, 9, 3, 8, 1, 2, 3] {
        look.push(t);
    }
    // `1 2 3` stood before with 9 behind it; `3` alone stood later with 8.
    assert_eq!(look.propose(), Some(9));
    look.push(3);
    // `3 3` stood nowhere; the last `3` before was followed by 3.
    assert_eq!(look.propose(), Some(3));
}
