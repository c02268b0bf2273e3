pub mod create_readme;
