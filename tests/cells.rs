use ever_playground::cell::{dump_cell, Cell};

fn c(data: &str, refs: Vec<Cell>) -> Cell {
    Cell::create(data, refs).unwrap()
}

#[test]
fn test_dump_cell() {
    let c1 = c("c_", vec![]);
    assert_eq!(dump_cell(&c1), r#"C("c_")"#);

    let c2 = c(
        "8abc5_",
        vec![
            c("c_", vec![c("bc", vec![]), c("45333ac9_", vec![c("c0feebabe", vec![])]), c("b_", vec![])]),
            c("deadbeef", vec![]),
            c("1", vec![c("2", vec![c("3", vec![])])]),
        ],
    );
    assert_eq!(dump_cell(&c2), r#"C("8abc5_",
  C("c_",
    C("bc"),
    C("45333ac9_",
      C("c0feebabe")),
    C("b_")),
  C("deadbeef"),
  C("1",
    C("2",
      C("3"))))"#);
}
