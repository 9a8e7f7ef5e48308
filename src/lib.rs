//! Validation of CPF numbers, the eleven-digit Brazilian taxpayer identifier
//! whose last two digits are weighted modulo-11 check digits.

pub mod cpf;
