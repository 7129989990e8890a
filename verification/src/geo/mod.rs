pub mod geo_aggregator;
