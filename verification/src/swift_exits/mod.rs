//! The swift-exit services: governance queries, supply pricing, and the
//! request as the swift-exit contract takes it.
pub mod governance_interactor;
pub mod price_calculator;
pub mod swift_exit;
