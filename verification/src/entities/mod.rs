pub mod enemy;
