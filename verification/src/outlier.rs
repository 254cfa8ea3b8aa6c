pub mod suppression;
