//! The rule-based document tools that the review agents call.
pub mod check_cross_reference;
pub mod check_imported_products;
pub mod compare_versions;
pub mod compare_with_template;
pub mod detect_boilerplate;
pub mod extract_obligations;
pub mod search_contradiction;
pub mod keywords;
pub mod answer_user;
pub mod output_finding;
pub mod output_verification_batch;
pub mod calendar;
pub mod calculate_timeline;
pub mod search_knowledge;
pub mod eval_cases;
pub mod scoring_rules;
pub mod eval_loop;
