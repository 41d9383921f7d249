use own2048::grid::{eval_tiles, line_to_left, next_tiles, predict, rotate, Direction};

#[test]
fn test00_line_to_left() {
  let mut vec = vec![0, 0, 0, 0];
  line_to_left(&mut vec);
  assert_eq!(vec, [0, 0, 0, 0]);
}
#[test]
fn test01_line_to_left() {
  let mut vec = vec![2, 2, 0, 0];
  line_to_left(&mut vec);
  assert_eq!(vec, [4, 0, 0, 0]);
}
#[test]
fn test02_line_to_left() {
  let mut vec = vec![0, 2, 2, 0];
  line_to_left(&mut vec);
  assert_eq!(vec, [4, 0, 0, 0]);
}
#[test]
fn test03_line_to_left() {
  let mut vec = vec![2, 0, 2, 0];
  line_to_left(&mut vec);
  assert_eq!(vec, [4, 0, 0, 0]);
}
#[test]
fn test04_line_to_left() {
  let mut vec = vec![0, 0, 2, 2];
  line_to_left(&mut vec);
  assert_eq!(vec, [4, 0, 0, 0]);
}
#[test]
fn test05_line_to_left() {
  let mut vec = vec![2, 4, 8, 8];
  line_to_left(&mut vec);
  assert_eq!(vec, [2, 4, 16, 0]);
}

#[test]
fn test00_rotate() {
  let mut vec2d = vec![
    vec![0, 1, 0, 0],
    vec![0, 1, 0, 0],
    vec![0, 1, 1, 1],
    vec![0, 0, 0, 0],
  ];
  rotate(&mut vec2d, 0);
  assert_eq!(
    vec2d,
    [[0, 1, 0, 0],
     [0, 1, 0, 0],
     [0, 1, 1, 1],
     [0, 0, 0, 0]]
  );
}
#[test]
fn test01_rotate() {
  let mut vec2d = vec![
    vec![0, 1, 0, 0],
    vec![0, 1, 0, 0],
    vec![0, 1, 1, 1],
    vec![0, 0, 0, 0],
  ];
  rotate(&mut vec2d, 1);
  assert_eq!(
    vec2d,
    [[0, 0, 0, 0],
     [0, 1, 1, 1],
     [0, 1, 0, 0],
     [0, 1, 0, 0]]
  );
}
#[test]
fn test02_rotate() {
  let mut vec2d = vec![
    vec![0, 1, 0, 0],
    vec![0, 1, 0, 0],
    vec![0, 1, 1, 1],
    vec![0, 0, 0, 0],
  ];
  rotate(&mut vec2d, 4);
  assert_eq!(
    vec2d,
    [[0, 1, 0, 0],
     [0, 1, 0, 0],
     [0, 1, 1, 1],
     [0, 0, 0, 0]]
  );
}

#[test]
fn test00_next_tiles() {
  let mut vec2d = vec![
    vec![0, 2, 0, 0],
    vec![0, 2, 0, 0],
    vec![0, 0, 2, 2],
    vec![0, 0, 0, 0],
  ];
  next_tiles(&mut vec2d, Direction::Left);
  assert_eq!(
    vec2d,
    [[2, 0, 0, 0],
     [2, 0, 0, 0],
     [4, 0, 0, 0],
     [0, 0, 0, 0]]
  );
}
#[test]
fn test01_next_tiles() {
  let mut vec2d = vec![
    vec![0, 2, 0, 0],
    vec![0, 2, 0, 0],
    vec![0, 0, 2, 2],
    vec![0, 0, 0, 0],
  ];
  next_tiles(&mut vec2d, Direction::Right);
  assert_eq!(
    vec2d,
    [[0, 0, 0, 2],
     [0, 0, 0, 2],
     [0, 0, 0, 4],
     [0, 0, 0, 0]]
  );
}
#[test]
fn test02_next_tiles() {
  let mut vec2d = vec![
    vec![0, 2, 0, 0],
    vec![0, 2, 0, 0],
    vec![0, 0, 2, 2],
    vec![0, 0, 0, 0],
  ];
  next_tiles(&mut vec2d, Direction::Top);
  assert_eq!(
    vec2d,
    [[0, 4, 2, 2],
     [0, 0, 0, 0],
     [0, 0, 0, 0],
     [0, 0, 0, 0]]
  );
}
#[test]
fn test03_next_tiles() {
  let mut vec2d = vec![
    vec![0, 2, 0, 0],
    vec![0, 2, 0, 0],
    vec![0, 0, 2, 2],
    vec![0, 0, 0, 0],
  ];
  next_tiles(&mut vec2d, Direction::Bottom);
  assert_eq!(
    vec2d,
    [[0, 0, 0, 0],
     [0, 0, 0, 0],
     [0, 0, 0, 0],
     [0, 4, 2, 2]]
  );
}

#[test]
fn test01_predict() {
  let vec2d = vec![
    vec![0, 2, 0, 0],
    vec![0, 0, 0, 0],
    vec![0, 0, 4, 2],
    vec![0, 0, 0, 0],
  ];
  assert_eq!(predict(&vec2d), Direction::Right);
}


#[test]
fn grid_left_move_is_tiles_to_left() {
    let start = vec![vec![0u64, 2, 0, 2], vec![4, 4, 4, 4], vec![8, 0, 0, 8], vec![2, 4, 8, 16]];
    let mut a = start.clone();
    let mut b = start.clone();
    next_tiles(&mut a, Direction::Left);
    own2048::grid::tiles_to_left(&mut b);
    assert_eq!(a, b);
    assert_eq!(vec![vec![4, 0, 0, 0], vec![8, 8, 0, 0], vec![16, 0, 0, 0], vec![2, 4, 8, 16]], a);
}

#[test]
fn test00_eval_tiles() {
  let vec2d = vec![
    vec![0, 2, 0, 0],
    vec![0, 2, 0, 0],
    vec![0, 0, 2, 2],
    vec![0, 0, 0, 0],
  ];
  assert_eq!(eval_tiles(&vec2d), 4);
}

#[test]
fn test00_predict() {
  let vec2d = vec![
    vec![0, 2, 0, 0],
    vec![0, 2, 0, 0],
    vec![0, 0, 4, 2],
    vec![0, 0, 0, 0],
  ];
  assert_eq!(predict(&vec2d), Direction::Top);
}
