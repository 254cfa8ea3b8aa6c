pub mod dbscan;
