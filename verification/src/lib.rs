//! Document extraction library: format sniffing, page selection, granularity
//! negotiation, Office Open XML reading and the text renderings of extracted
//! documents.
pub mod text;
pub mod granularity;
pub mod error;
pub mod capabilities;
pub mod selection;
pub mod sniff;
pub mod cli;
pub mod model;
pub mod lean;
pub mod markdown;
pub mod strmap;
pub mod xml;
pub mod relationships;
pub mod theme;
pub mod styles;
pub mod numbering;
pub mod opc;
pub mod docx;
pub mod flow;
pub mod story;
pub mod flow_markdown;
pub mod html_table;
pub mod flow_lean;
pub mod page_lean;
