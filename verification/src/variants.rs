pub mod counting_bloom;
