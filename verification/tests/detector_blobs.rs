use terraria_fishing_bot::detector::{find_blobs, Blob, Detector};

fn mask(rows: &[&str]) -> (Vec<u8>, u32, u32) {
    let h = rows.len() as u32;
    let w = rows[0].len() as u32;
    let data = rows
        .iter()
        .flat_map(|r| r.bytes().map(|b| if b == b'#' { 255u8 } else { 0u8 }))
        .collect();
    (data, w, h)
}

#[test]
fn blobs_are_four_connected_groups_in_row_major_order() {
    let (m, w, h) = mask(&["##..#", "#...#", "..#..", ".#.##"]);
    let blobs = find_blobs(&m, w, h, 0);
    assert_eq!(
        blobs,
        vec![
            Blob { area: 3, center_x: 0, center_y: 0 },
            Blob { area: 2, center_x: 4, center_y: 0 },
            Blob { area: 1, center_x: 2, center_y: 2 },
            Blob { area: 1, center_x: 1, center_y: 3 },
            Blob { area: 2, center_x: 3, center_y: 3 },
        ]
    );
    let big = find_blobs(&m, w, h, 2);
    assert_eq!(big.len(), 3);
    assert!(big.iter().all(|b| b.area >= 2));
}

#[test]
fn diagonal_pixels_are_apart() {
    let (m, w, h) = mask(&["#.", ".#"]);
    assert_eq!(find_blobs(&m, w, h, 1).len(), 2);
}

#[test]
fn blob_wrapping_rows_is_not_joined() {
    // the last pixel of row 0 and the first of row 1 are not neighbours
    let (m, w, h) = mask(&["..#", "#.."]);
    assert_eq!(find_blobs(&m, w, h, 1).len(), 2);
}

#[test]
fn bobber_is_the_smallest_large_enough_blob() {
    let (m, w, h) = mask(&[
        "####......",
        "####...###",
        "####...###",
        "......####",
        "##........",
    ]);
    let d = Detector::new();
    // blobs: 12 pixels at the top left, 10 on the right, 2 at the bottom (too small)
    assert_eq!(d.get_bobber_pos(&m, w, h), Some((7, 2)));
    assert_eq!(d.biting_name(), None);
}

#[test]
fn no_bobber_in_an_empty_mask() {
    let d = Detector::new();
    let (m, w, h) = mask(&["....", "...."]);
    assert_eq!(d.get_bobber_pos(&m, w, h), None);
    assert_eq!(d.get_bobber_pos(&[], 0, 7), None);
}
