//! A small infix calculator: one line of arithmetic text (digits, `+ - * /`,
//! parentheses, spaces) is tokenized, reduced by operator priority into a
//! binary tree, and folded into an exact rational value.

pub mod rat;
pub mod token;
