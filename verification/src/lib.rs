pub mod game_2048_matrix;
pub mod game_data;
pub mod line_model;
