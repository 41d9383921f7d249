use own2048::game::{Direction, Game};

#[test]
fn test00_count_empty() {
  let g = Game {
    board: 0x0010_0100_0000_1000_u64,
    score: 0,
  };
  assert_eq!(13, g.count_empty());
}

#[test]
fn test01_count_empty() {
  let g = Game {
    board: 0x0010_0100_0000_1000_u64,
    score: 0,
  };
  assert_eq!(13, g.count_empty());
}

#[test]
fn test02_count_empty() {
  let g = Game {
    board: 0x1000_0000_0000_0001_u64,
    score: 0,
  };
  assert_eq!(14, g.count_empty());
}

#[test]
fn test03_count_empty() {
  let g = Game {
    board: 0x0000_0000_0000_0000_u64,
    score: 0,
  };
  assert_eq!(16, g.count_empty());
}

#[test]
fn test04_count_empty() {
  let g = Game {
    board: 0xFFFF_FFFF_FFFF_FFFF_u64,
    score: 0,
  };
  assert_eq!(0, g.count_empty());
}

#[test]
fn test05_count_empty() {
  let g = Game {
    board: 0x9123_4567_89AB_CDEF_u64,
    score: 0,
  };
  assert_eq!(0, g.count_empty());
}

#[test]
fn test00_empty_tile_idx() {
  let g = Game {
    board: 0x1000_0000_0000_0001_u64,
    score: 0,
  };
  assert_eq!(
    vec![1, 2, 3, 4, 5, 6, 7, 8, 9, 10, 11, 12, 13, 14],
    g.empty_tile_idx()
  );
}

#[test]
fn test01_empty_tile_idx() {
  let g = Game {
    board: 0x0566_0100_0000_0001_u64,
    score: 0,
  };
  assert_eq!(
    vec![0, 4, 6, 7, 8, 9, 10, 11, 12, 13, 14],
    g.empty_tile_idx()
  );
}

#[test]
fn test02_empty_tile_idx() {
  let g = Game {
    board: 0x0566_3431_5555_6666_u64,
    score: 0,
  };
  assert_eq!(vec![0], g.empty_tile_idx());
}

#[test]
fn test03_empty_tile_idx() {
  let g = Game {
    board: 0x1566_3431_5555_6666_u64,
    score: 0,
  };
  let mut vec = Vec::<u32>::new();
  assert_eq!(vec, g.empty_tile_idx());
}

#[test]
fn test00_spawn_tile() {
  let mut g = Game {
    board: 0x0000_0000_0000_0000_u64,
    score: 0,
  };
  for _ in 0..16 {
    g.spawn_tile();
  }
  println!("{:16X}", g.board);
  g.spawn_tile();
  assert_eq!(0x0000_0000_0000_0000_u64, g.board);
}

#[test]
fn test00_get_value() {
  let mut g = Game {
    board: 0x0123_4567_89AB_CDEF_u64,
    score: 0,
  };
  assert_eq!(0x0, g.get_value(0));
  assert_eq!(0x1, g.get_value(1));
  assert_eq!(0x2, g.get_value(2));
  assert_eq!(0x3, g.get_value(3));
  assert_eq!(0x4, g.get_value(4));
  assert_eq!(0x5, g.get_value(5));
  assert_eq!(0x6, g.get_value(6));
  assert_eq!(0x7, g.get_value(7));
  assert_eq!(0x8, g.get_value(8));
  assert_eq!(0x9, g.get_value(9));
  assert_eq!(0xA, g.get_value(10));
  assert_eq!(0xB, g.get_value(11));
  assert_eq!(0xC, g.get_value(12));
  assert_eq!(0xD, g.get_value(13));
  assert_eq!(0xE, g.get_value(14));
  assert_eq!(0xF, g.get_value(15));
}

#[test]
fn test00_set_value() {
  let mut g = Game {
    board: 0x0123_4567_89AB_CDEF_u64,
    score: 0,
  };
  g.set_value(5, 0xA);
  g.set_value(10, 0x5);
  assert_eq!(0x0123_4A67_895B_CDEF_u64, g.board);
}

#[test]
fn test01_set_value() {
  let mut g = Game {
    board: 0x0123_4567_89AB_CDEF_u64,
    score: 0,
  };
  g.set_value(0, 0xF);
  g.set_value(15, 0x0);
  assert_eq!(0xF123_4567_89AB_CDE0_u64, g.board);
}

#[test]
fn test00_transpose() {
  let mut g = Game {
    board: 0x0123_4567_89AB_CDEF_u64,
    score: 0,
  };
  g.transpose();
  println!("{:16X}", g.board);
  assert_eq!(0x048C_159D_26AE_37BF_u64, g.board);
}

#[test]
fn test00_rows() {
  let mut g = Game {
    board: 0x0123_4567_89AB_CDEF_u64,
    score: 0,
  };
  assert_eq!([0x0123, 0x4567, 0x89AB, 0xCDEF], g.rows());
}

#[test]
fn test00_cols() {
  let mut g = Game {
    board: 0x0123_4567_89AB_CDEF_u64,
    score: 0,
  };
  assert_eq!([0x048C, 0x159D, 0x26AE, 0x37BF], g.cols());
}

#[test]
fn test00_row2vec() {
  let mut g = Game {
    board: 0x0123_4567_89AB_CDEF_u64,
    score: 0,
  };
  let rows = g.rows();
  assert_eq!(vec![0, 1, 2, 3], g.row2vec(rows[0]));
}

#[test]
fn test00_row2left() {
  let mut g = Game {
    board: 0x0123_4567_89AB_CDEF_u64,
    score: 0,
  };

  let tmp = g.row2left(vec![1, 0, 0, 1]);
  println!("{:16X}", tmp);
  assert_eq!(0x2000, tmp);
  assert_eq!(1, g.score);
}

#[test]
fn test01_row2left() {
  let mut g = Game {
    board: 0x0123_4567_89AB_CDEF_u64,
    score: 0,
  };

  let tmp = g.row2left(vec![2, 0, 0, 1]);
  println!("{:16X}", tmp);
  assert_eq!(0x2100, tmp);
  assert_eq!(0, g.score);
}

#[test]
fn test02_row2left() {
  let mut g = Game {
    board: 0x0123_4567_89AB_CDEF_u64,
    score: 0,
  };

  let tmp = g.row2left(vec![2, 2, 1, 1]);
  println!("{:16X}", tmp);
  assert_eq!(0x3200, tmp);
  assert_eq!(3, g.score);
}

#[test]
fn test00_into_left() {
  let mut g = Game {
    board: 0x0101_0001_1100_2002_u64,
    score: 0,
  };
  g.into_left();
  println!("{:16X}", g.board);
  assert_eq!(0x2000_1000_2000_3000_u64, g.board);
}

#[test]
fn test01_into_left() {
  let mut g = Game {
    board: 0x1121_4014_4023_2111_u64,
    score: 0,
  };
  g.into_left();
  println!("{:16X}", g.board);
  assert_eq!(0x2210_4140_4230_2210_u64, g.board);
}

#[test]
fn test00_rotate90deg() {
  let mut g = Game {
    board: 0x0123_4567_89AB_CDEF_u64,
    score: 0,
  };
  g.rotate90deg();
  println!("{:16X}", g.board);
  assert_eq!(0xC840_D951_EA62_FB73_u64, g.board);
}

#[test]
fn test00_move_to() {
  let mut g = Game {
    board: 0x1121_4014_4023_2111_u64,
    score: 0,
  };
  g.move_to(Direction::Right);
  println!("{:16X}", g.board);
  assert_eq!(0x0221_0414_0423_0212_u64, g.board);
}

#[test]
fn test01_move_to() {
  let mut g = Game {
    board: 0x1121_4014_4023_2111_u64,
    score: 0,
  };
  g.move_to(Direction::Down);
  println!("{:16X}", g.board);
  assert_eq!(0x0021_1014_5023_2211_u64, g.board);
}

#[test]
fn test00_get_max_value() {
  let mut g = Game {
    board: 0x1121_4014_4523_2111_u64,
    score: 0,
  };
  assert_eq!(5, g.get_max_value());
}

#[test]
fn test00_is_end() {
  let mut g = Game {
    board: 0x9123_4567_89AB_CDEF_u64,
    score: 0,
  };
  assert_eq!(true, g.is_end());
}

#[test]
fn test01_is_end() {
  let mut g = Game {
    board: 0x1123_4567_89AB_CDEF_u64,
    score: 0,
  };
  assert_eq!(false, g.is_end());
}

#[test]
fn test02_is_end() {
  let mut g = Game {
    board: 0x0000_4567_89AB_CDEF_u64,
    score: 0,
  };
  assert_eq!(false, g.is_end());
}

