pub mod files;
pub mod heap;
pub mod lsystem;
pub mod text;
pub mod vec_ops;
pub mod util;
pub mod voronoi;
pub mod obstacle;
pub mod traversability;
pub mod player_event;
pub mod state;
pub mod player;
pub mod point_vertex;
pub mod cell;
pub mod point_obstacle;
pub mod union_find;
pub mod obstacle_table;
pub mod map_gen;
pub mod obstacle_automata;
pub mod goal_table;
pub mod game_settings;
pub mod collision;
pub mod look_mode;
pub mod main_viewer;
pub mod random;
pub mod spawning;
pub mod turns;
pub mod game_flow;
pub mod package;
pub mod skating;
pub mod neighbourhood;
