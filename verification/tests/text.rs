use game2048::cell::Cell;
use game2048::text::push_decimal;

#[test]
fn an_empty_cell_describes_itself_as_empty() {
    assert_eq!(Cell::empty().describe(), "Empty");
    assert_eq!(Cell { value: 0, combined: true }.describe(), "Empty");
}

#[test]
fn a_tile_describes_its_value_and_its_mark() {
    assert_eq!(Cell::occupied(2).describe(), "Occupied(value=2, combined=false");
    assert_eq!(
        Cell { value: 2048, combined: true }.describe(),
        "Occupied(value=2048, combined=true"
    );
    assert_eq!(
        Cell::occupied(1 << 31).describe(),
        "Occupied(value=2147483648, combined=false"
    );
}

#[test]
fn push_decimal_appends_the_digits() {
    let mut out = String::from("n=");
    push_decimal(&mut out, 0);
    push_decimal(&mut out, 7);
    push_decimal(&mut out, 10);
    push_decimal(&mut out, 4294967295);
    assert_eq!(out, "n=07104294967295");
    for n in [1u32, 9, 99, 100, 101, 65536, 1000000] {
        let mut out = String::new();
        push_decimal(&mut out, n);
        assert_eq!(out, n.to_string());
    }
}
