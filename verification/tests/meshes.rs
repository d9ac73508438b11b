use ray_tracing::stl::{facets_of, get_u32, read, read_bin, Facet, StlError, FACET_PATTERN};

fn words(values: [f32; 3]) -> [u32; 3] {
    [values[0].to_bits(), values[1].to_bits(), values[2].to_bits()]
}

fn binary_mesh(facets: &[[[f32; 3]; 4]]) -> Vec<u8> {
    let mut bytes = vec![b' '; 80];
    bytes.extend_from_slice(&(facets.len() as u32).to_le_bytes());
    for facet in facets {
        for triple in facet {
            for value in triple {
                bytes.extend_from_slice(&value.to_bits().to_le_bytes());
            }
        }
        bytes.extend_from_slice(&[0, 0]);
    }
    bytes
}

fn numbers(facet: &[&str]) -> Vec<Option<String>> {
    let mut groups = vec![Some(facet.join(" "))];
    groups.extend(facet.iter().map(|n| Some(n.to_string())));
    groups
}

#[test]
fn get_u32_reads_little_endian() {
    assert_eq!(get_u32(&[0x78, 0x56, 0x34, 0x12], 0), Some(0x1234_5678));
    assert_eq!(get_u32(&[9, 1, 0, 0, 0], 1), Some(1));
    assert_eq!(get_u32(&[0xff, 0xff, 0xff, 0xff], 0), Some(u32::MAX));
    assert_eq!(get_u32(&[0, 0, 0, 0x80], 0), Some(0x8000_0000));
}

#[test]
fn get_u32_needs_four_bytes() {
    assert_eq!(get_u32(&[1, 2, 3], 0), None);
    assert_eq!(get_u32(&[1, 2, 3, 4], 1), None);
    assert_eq!(get_u32(&[], 0), None);
    assert_eq!(get_u32(&[1, 2, 3, 4], usize::MAX), None);
    assert_eq!(get_u32(&[1, 2, 3, 4], 4), None);
}

#[test]
fn read_bin_reads_every_facet() {
    let facets = [
        [[0.0, 0.0, 1.0], [0.0, 0.0, 0.0], [1.0, 0.0, 0.0], [0.0, 1.0, 0.0]],
        [[0.0, -1.0, 0.0], [0.5, 2.5, -3.25], [1.0e10, 1.0e-10, 7.0], [-0.0, 3.0, 4.0]],
    ];
    let mesh = read_bin(&binary_mesh(&facets)).unwrap();
    assert_eq!(mesh.len(), 2);
    for (read, written) in mesh.iter().zip(facets.iter()) {
        assert_eq!(
            *read,
            Facet {
                normal: words(written[0]),
                a: words(written[1]),
                b: words(written[2]),
                c: words(written[3]),
            }
        );
    }
    assert_eq!(f32::from_bits(mesh[1].a[2]), -3.25);
}

#[test]
fn read_bin_takes_an_empty_mesh() {
    assert_eq!(read_bin(&binary_mesh(&[])), Ok(vec![]));
}

#[test]
fn read_bin_passes_over_what_follows_the_facets() {
    let facet = [[0.0, 0.0, 1.0], [0.0, 0.0, 0.0], [1.0, 0.0, 0.0], [0.0, 1.0, 0.0]];
    let mut bytes = binary_mesh(&[facet]);
    let whole = read_bin(&bytes).unwrap();
    bytes.extend_from_slice(&[1, 2, 3, 4, 5]);
    assert_eq!(read_bin(&bytes), Ok(whole));
}

#[test]
fn read_bin_reports_data_cut_short() {
    assert_eq!(read_bin(&[]), Err(StlError::Truncated));
    assert_eq!(read_bin(&[0u8; 80]), Err(StlError::Truncated));
    assert_eq!(read_bin(&[0u8; 83]), Err(StlError::Truncated));
    let facet = [[0.0, 0.0, 1.0], [0.0, 0.0, 0.0], [1.0, 0.0, 0.0], [0.0, 1.0, 0.0]];
    let mut bytes = binary_mesh(&[facet, facet]);
    bytes.pop();
    assert_eq!(read_bin(&bytes), Err(StlError::Truncated));
    bytes.truncate(84 + 50);
    assert_eq!(read_bin(&bytes), Err(StlError::Truncated));
    let mut huge = vec![0u8; 84];
    huge[80..84].copy_from_slice(&u32::MAX.to_le_bytes());
    assert_eq!(read_bin(&huge), Err(StlError::Truncated));
}

#[test]
fn read_finds_the_facets_of_a_text_mesh() {
    let text = "solid corner\n\
                facet normal 0 0 1\n  outer loop\n    vertex 0 0 0\n    vertex 1 0 0\n    vertex 0 1 0\n  endloop\nendfacet\n\
                facet normal -1.5e+0 0.0 +2\n outer loop\n vertex 1e-3 -2.25 3.\n vertex 4 5 6\n vertex 7 8 9\n endloop\n endfacet\n\
                endsolid corner\n";
    let mesh = read(text).unwrap();
    assert_eq!(mesh.len(), 2);
    assert_eq!(mesh[0], vec!["0", "0", "1", "0", "0", "0", "1", "0", "0", "0", "1", "0"]);
    assert_eq!(
        mesh[1],
        vec!["-1.5e+0", "0.0", "+2", "1e-3", "-2.25", "3.", "4", "5", "6", "7", "8", "9"]
    );
}

#[test]
fn read_passes_over_what_is_no_facet() {
    assert_eq!(read(""), Ok(vec![]));
    assert_eq!(read("solid nothing\nendsolid nothing\n"), Ok(vec![]));
    // a facet with two vertices only
    let text = "facet normal 0 0 1 outer loop vertex 0 0 0 vertex 1 0 0 endloop endfacet";
    assert_eq!(read(text), Ok(vec![]));
    let text = "facet normal 0 0 1outer loopvertex 0 0 0vertex 1 0 0vertex 0 1 0endloopendfacet";
    assert_eq!(read(text).map(|m| m.len()), Ok(1));
}

#[test]
fn facet_pattern_has_twelve_groups() {
    assert_eq!(FACET_PATTERN.matches('(').count(), 12);
    assert!(FACET_PATTERN.starts_with("facet"));
    assert!(FACET_PATTERN.ends_with("endfacet"));
}

#[test]
fn facets_of_takes_the_twelve_numbers_of_each_match() {
    let one = ["1", "2", "3", "4", "5", "6", "7", "8", "9", "10", "11", "12"];
    let two = ["a", "b", "c", "d", "e", "f", "g", "h", "i", "j", "k", "l"];
    let mesh = facets_of(Some(vec![numbers(&one), numbers(&two)])).unwrap();
    assert_eq!(mesh, vec![one.to_vec(), two.to_vec()]);
    assert_eq!(facets_of(Some(vec![])), Ok(vec![]));
}

#[test]
fn facets_of_reports_a_pattern_not_taken() {
    assert_eq!(facets_of(None), Err(StlError::Pattern));
}

#[test]
fn facets_of_reports_a_match_that_lacks_a_number() {
    let one = ["1", "2", "3", "4", "5", "6", "7", "8", "9", "10", "11", "12"];
    let mut short = numbers(&one);
    short.pop();
    assert_eq!(facets_of(Some(vec![numbers(&one), short])), Err(StlError::Groups));
    let mut long = numbers(&one);
    long.push(Some("13".to_string()));
    assert_eq!(facets_of(Some(vec![long])), Err(StlError::Groups));
    let mut gap = numbers(&one);
    gap[5] = None;
    assert_eq!(facets_of(Some(vec![gap])), Err(StlError::Groups));
    // the whole match itself is not looked at
    let mut headless = numbers(&one);
    headless[0] = None;
    assert_eq!(facets_of(Some(vec![headless])).map(|m| m.len()), Ok(1));
}
