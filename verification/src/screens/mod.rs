pub mod welcome;
